//! The "other pending device work" abstraction consulted at submission time.
//!
//! A [`GpuFuture`] stands for already-submitted, possibly still-executing
//! work.  Before locking a command buffer's resources, the submitter asks the
//! future whether each access is already known to be safely ordered: `Ok`
//! means yes, `Err(Denied)` is a hard conflict, and `Err(Unknown)` means the
//! future has no information, so the caller falls back to the live lock
//! check.  Implementations describe their exec answers with a spec-level
//! model, so that callers can reason about every outcome.

use crate::errors::AccessCheckError;
use crate::flags::{AccessFlags, DeviceRange, ImageLayout, PipelineStages};
use vstd::prelude::*;

verus! {

/// Pending device work that can be queried for conflicting accesses.
pub trait GpuFuture {
    /// Model of [`GpuFuture::check_buffer_access`]'s answer.
    spec fn spec_check_buffer_access(
        &self,
        buffer: u64,
        range: DeviceRange,
        exclusive: bool,
        queue: u64,
    ) -> Result<Option<(PipelineStages, AccessFlags)>, AccessCheckError>;

    /// Model of [`GpuFuture::check_image_access`]'s answer.
    spec fn spec_check_image_access(
        &self,
        image: u64,
        range: DeviceRange,
        exclusive: bool,
        expected_layout: ImageLayout,
        queue: u64,
    ) -> Result<Option<(PipelineStages, AccessFlags)>, AccessCheckError>;

    /// Whether accessing `range` of `buffer` is known to be safely ordered
    /// after this work.
    fn check_buffer_access(
        &self,
        buffer: u64,
        range: DeviceRange,
        exclusive: bool,
        queue: u64,
    ) -> (r: Result<Option<(PipelineStages, AccessFlags)>, AccessCheckError>)
        ensures
            r == self.spec_check_buffer_access(buffer, range, exclusive, queue),
    ;

    /// Whether accessing `range` of `image`, expecting `expected_layout`, is
    /// known to be safely ordered after this work.
    fn check_image_access(
        &self,
        image: u64,
        range: DeviceRange,
        exclusive: bool,
        expected_layout: ImageLayout,
        queue: u64,
    ) -> (r: Result<Option<(PipelineStages, AccessFlags)>, AccessCheckError>)
        ensures
            r == self.spec_check_image_access(image, range, exclusive, expected_layout, queue),
    ;
}

/// The trivial future: no other work is pending, so nothing is known about
/// any access and every query answers `Unknown`.
pub struct NoPendingWork {}

impl GpuFuture for NoPendingWork {
    open spec fn spec_check_buffer_access(
        &self,
        buffer: u64,
        range: DeviceRange,
        exclusive: bool,
        queue: u64,
    ) -> Result<Option<(PipelineStages, AccessFlags)>, AccessCheckError> {
        Err(AccessCheckError::Unknown)
    }

    open spec fn spec_check_image_access(
        &self,
        image: u64,
        range: DeviceRange,
        exclusive: bool,
        expected_layout: ImageLayout,
        queue: u64,
    ) -> Result<Option<(PipelineStages, AccessFlags)>, AccessCheckError> {
        Err(AccessCheckError::Unknown)
    }

    fn check_buffer_access(
        &self,
        buffer: u64,
        range: DeviceRange,
        exclusive: bool,
        queue: u64,
    ) -> (r: Result<Option<(PipelineStages, AccessFlags)>, AccessCheckError>) {
        Err(AccessCheckError::Unknown)
    }

    fn check_image_access(
        &self,
        image: u64,
        range: DeviceRange,
        exclusive: bool,
        expected_layout: ImageLayout,
        queue: u64,
    ) -> (r: Result<Option<(PipelineStages, AccessFlags)>, AccessCheckError>) {
        Err(AccessCheckError::Unknown)
    }
}

} // verus!
