//! Error types.
//!
//! Hazard resolution itself never fails; only submission-time conflicts and
//! malformed declarations surface as errors, always synchronously and always
//! with enough context (command name, parameter, sequence index) for an
//! actionable diagnostic.

use crate::flags::{DeviceRange, ImageLayout};
use crate::resource::ParamName;
use vstd::prelude::*;

verus! {

/// Why an access was denied outright.
#[derive(Clone, Copy, Debug, PartialEq, Eq, Structural)]
pub enum AccessError {
    /// The resource range is already used in a way that excludes this access.
    AlreadyInUse,
    /// The image range is recorded in a layout other than the one requested.
    UnexpectedImageLayout { allowed: ImageLayout, requested: ImageLayout },
}

/// Outcome of asking whether an access is known to be safe.
///
/// `Unknown` is not a failure: it means "no information here, the caller must
/// decide" — typically by falling back to its own lock check.
#[derive(Clone, Copy, Debug, PartialEq, Eq, Structural)]
pub enum AccessCheckError {
    Denied(AccessError),
    Unknown,
}

/// A submission-time conflict, wrapping the underlying [`AccessError`] with
/// the recorded command's name, the parameter through which the resource was
/// declared, and the command's sequence index.
#[derive(Clone, Copy, Debug, PartialEq, Eq)]
pub enum CommandBufferExecError {
    AccessError {
        error: AccessError,
        command_name: &'static str,
        command_param: ParamName,
        command_offset: usize,
    },
}

/// Why building a command buffer failed: a resource was declared with a
/// malformed (empty or inverted) range.
#[derive(Clone, Copy, Debug, PartialEq, Eq)]
pub enum SyncCommandBufferBuilderError {
    MalformedResourceRange {
        command_name: &'static str,
        command_param: ParamName,
        range: DeviceRange,
    },
}

/// Error raised while locating a native implementation to load.
#[derive(Clone, Debug)]
pub enum LoadingError {
    /// The shared library could not be loaded.
    LibraryLoadFailure(String),
    /// A required entry point is missing from the implementation.
    MissingEntryPoint(String),
}

impl LoadingError {
    /// A short description of the error.
    pub fn message(&self) -> (r: &'static str)
        ensures
            self is LibraryLoadFailure ==> r@ == "failed to load the Vulkan shared library"@,
            self is MissingEntryPoint ==> r@
                == "one of the entry points required to be supported by the Vulkan implementation is missing"@,
    {
        match self {
            LoadingError::LibraryLoadFailure(_) => "failed to load the Vulkan shared library",
            LoadingError::MissingEntryPoint(_) => "one of the entry points required to be supported by the Vulkan implementation is missing",
        }
    }
}

} // verus!
