//! The stage/access vocabulary that commands use to describe their work, and
//! the small plain types shared by the tracking machinery: pipeline stage and
//! access-flag bit sets, image layouts, and device ranges.

use vstd::prelude::*;

verus! {

/// A set of pipeline stages, as a bit set.
///
/// Each bit names one phase of device execution (transfer, compute, the
/// graphics stages, ...).  Barriers are scoped by a source and a destination
/// stage set.
#[derive(Clone, Copy, Debug, PartialEq, Eq, Structural)]
pub struct PipelineStages {
    pub bits: u32,
}

/// A set of memory access kinds, as a bit set.
///
/// Each bit names one way of touching memory (transfer read, transfer write,
/// shader read, ...).  Barriers carry the source and destination access sets
/// whose memory they make visible.
#[derive(Clone, Copy, Debug, PartialEq, Eq, Structural)]
pub struct AccessFlags {
    pub bits: u32,
}

impl PipelineStages {
    /// The empty stage set.
    pub fn none() -> (r: PipelineStages)
        ensures
            r.bits == 0,
    {
        PipelineStages { bits: 0 }
    }

    /// Bitwise union of two stage sets.
    pub fn union(self, other: PipelineStages) -> (r: PipelineStages)
        ensures
            r.bits == self.bits | other.bits,
    {
        PipelineStages { bits: self.bits | other.bits }
    }

    /// True if the two stage sets share a stage.
    pub fn intersects(self, other: PipelineStages) -> (r: bool)
        ensures
            r == ((self.bits & other.bits) != 0),
    {
        (self.bits & other.bits) != 0
    }
}

impl AccessFlags {
    /// The empty access set.
    pub fn none() -> (r: AccessFlags)
        ensures
            r.bits == 0,
    {
        AccessFlags { bits: 0 }
    }

    /// Bitwise union of two access sets.
    pub fn union(self, other: AccessFlags) -> (r: AccessFlags)
        ensures
            r.bits == self.bits | other.bits,
    {
        AccessFlags { bits: self.bits | other.bits }
    }

    /// True if the two access sets share an access kind.
    pub fn intersects(self, other: AccessFlags) -> (r: bool)
        ensures
            r == ((self.bits & other.bits) != 0),
    {
        (self.bits & other.bits) != 0
    }
}

/// Stage bit for transfer (copy/fill/blit) work.
pub const STAGE_TRANSFER: u32 = 0x1000;

/// Stage bit for compute shader work.
pub const STAGE_COMPUTE_SHADER: u32 = 0x800;

/// Stage bit for vertex input.
pub const STAGE_VERTEX_INPUT: u32 = 0x4;

/// Stage bit covering every stage of a secondary command buffer.
pub const STAGE_ALL_COMMANDS: u32 = 0x10000;

/// Access bit for transfer reads.
pub const ACCESS_TRANSFER_READ: u32 = 0x800;

/// Access bit for transfer writes.
pub const ACCESS_TRANSFER_WRITE: u32 = 0x1000;

/// Access bit for shader reads.
pub const ACCESS_SHADER_READ: u32 = 0x20;

/// Access bit for shader writes.
pub const ACCESS_SHADER_WRITE: u32 = 0x40;

/// Access bits covering every read and write of a secondary command buffer.
pub const ACCESS_MEMORY_READ_WRITE: u32 = 0x18000;

/// How image memory is organized.  Certain operations require a specific
/// layout, and changing layout takes a transition barrier.
///
/// `Undefined` is the "don't care" sentinel: as an expected or initial layout
/// it means the holder is indifferent to the actual layout.
#[derive(Clone, Copy, Debug, PartialEq, Eq, Structural)]
pub enum ImageLayout {
    Undefined,
    General,
    ColorAttachmentOptimal,
    ShaderReadOnlyOptimal,
    TransferSrcOptimal,
    TransferDstOptimal,
}

/// A half-open range `[start, end)` of device addresses or flattened
/// subresource indices.
#[derive(Clone, Copy, Debug, PartialEq, Eq, Structural)]
pub struct DeviceRange {
    pub start: u64,
    pub end: u64,
}

impl DeviceRange {
    /// A well-formed range is non-empty.
    pub open spec fn wf(self) -> bool {
        self.start < self.end
    }

    /// True if `k` lies inside the range.
    pub open spec fn spec_contains(self, k: int) -> bool {
        self.start <= k < self.end
    }

    /// True if the two ranges share a point.
    pub open spec fn spec_overlaps(self, other: DeviceRange) -> bool {
        self.start < other.end && other.start < self.end
    }

    /// True if `k` lies inside the range.
    pub fn contains(self, k: u64) -> (r: bool)
        ensures
            r == self.spec_contains(k as int),
    {
        self.start <= k && k < self.end
    }

    /// True if the two ranges share a point.
    pub fn overlaps(self, other: DeviceRange) -> (r: bool)
        ensures
            r == self.spec_overlaps(other),
    {
        self.start < other.end && other.start < self.end
    }
}

/// How one command touches one resource: the pipeline stages it runs in, the
/// access kinds it performs, and whether the access is exclusive (a write) or
/// shared (a read).
#[derive(Clone, Copy, Debug, PartialEq, Eq, Structural)]
pub struct PipelineMemoryAccess {
    pub stages: PipelineStages,
    pub access: AccessFlags,
    pub exclusive: bool,
}

} // verus!
