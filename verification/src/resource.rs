//! Resource identities, per-range tracked state, and the record of which
//! command touched which resource.
//!
//! Resources are identified by stable `u64` handles; sub-resource extents are
//! half-open [`DeviceRange`]s (for images, over flattened subresource
//! indices).  For every disjoint range of a resource the tracking machinery
//! keeps one [`BufferRangeState`] or [`ImageRangeState`]; the full ordered
//! list of declared uses is kept per resource as [`BufferUse`]/[`ImageUse`]
//! records, for diagnostics and for the accumulated per-resource access.

use crate::flags::{AccessFlags, DeviceRange, ImageLayout, PipelineMemoryAccess, PipelineStages};
use vstd::prelude::*;

verus! {

/// The parameter of a recorded command through which a resource was declared.
/// Used in diagnostics when an access conflict is reported.
#[derive(Clone, Copy, Debug, PartialEq, Eq, Structural)]
pub enum ParamName {
    SrcBuffer,
    DstBuffer,
    SrcImage,
    DstImage,
    VertexBuffer,
    DescriptorSet,
    SecondaryCommandBuffer,
}

impl ParamName {
    /// The parameter's name as it appears in diagnostics.
    pub fn as_str(&self) -> (r: &'static str)
        ensures
            r@ == self.spec_str(),
    {
        match self {
            ParamName::SrcBuffer => "src_buffer",
            ParamName::DstBuffer => "dst_buffer",
            ParamName::SrcImage => "src_image",
            ParamName::DstImage => "dst_image",
            ParamName::VertexBuffer => "vertex_buffer",
            ParamName::DescriptorSet => "descriptor_set",
            ParamName::SecondaryCommandBuffer => "secondary_command_buffer",
        }
    }

    /// The characters of the diagnostic name.
    pub open spec fn spec_str(&self) -> Seq<char> {
        match self {
            ParamName::SrcBuffer => "src_buffer"@,
            ParamName::DstBuffer => "dst_buffer"@,
            ParamName::SrcImage => "src_image"@,
            ParamName::DstImage => "dst_image"@,
            ParamName::VertexBuffer => "vertex_buffer"@,
            ParamName::DescriptorSet => "descriptor_set"@,
            ParamName::SecondaryCommandBuffer => "secondary_command_buffer"@,
        }
    }
}

/// One access to a resource: which recorded command (by sequence index) and
/// which named parameter caused it.
#[derive(Clone, Copy, Debug, PartialEq, Eq, Structural)]
pub struct ResourceUse {
    pub command_index: usize,
    pub name: ParamName,
}

/// Tracked state of one disjoint range of a buffer.
///
/// `stages` and `access` are those of the last command to touch the range
/// (merged over consecutive compatible reads); `exclusive` says whether that
/// access was a write.  `first_use` is the first command ever to touch the
/// range, reported when a conflict on the range must be diagnosed.
/// `last_command` is the sequence index of the most recent toucher, used to
/// decide whether a hazard lies inside the not-yet-flushed batch.
#[derive(Clone, Copy, Debug, PartialEq, Eq, Structural)]
pub struct BufferRangeState {
    pub first_use: ResourceUse,
    pub stages: PipelineStages,
    pub access: AccessFlags,
    pub exclusive: bool,
    pub last_command: usize,
}

/// Tracked state of one disjoint range of an image.
///
/// Besides the buffer fields, records the layout the range must be in when
/// the command buffer starts (`initial_layout`, `Undefined` if indifferent)
/// and the layout it holds after the last recorded access (`final_layout`).
#[derive(Clone, Copy, Debug, PartialEq, Eq, Structural)]
pub struct ImageRangeState {
    pub first_use: ResourceUse,
    pub stages: PipelineStages,
    pub access: AccessFlags,
    pub exclusive: bool,
    pub last_command: usize,
    pub initial_layout: ImageLayout,
    pub final_layout: ImageLayout,
}

/// One declared buffer access, kept in recording order per command buffer.
#[derive(Clone, Copy, Debug, PartialEq, Eq, Structural)]
pub struct BufferUse {
    pub resource_use: ResourceUse,
    pub buffer: u64,
    pub range: DeviceRange,
    pub memory: PipelineMemoryAccess,
}

/// One declared image access, kept in recording order per command buffer.
#[derive(Clone, Copy, Debug, PartialEq, Eq, Structural)]
pub struct ImageUse {
    pub resource_use: ResourceUse,
    pub image: u64,
    pub range: DeviceRange,
    pub memory: PipelineMemoryAccess,
    pub start_layout: ImageLayout,
    pub end_layout: ImageLayout,
}

/// A resource declaration handed to the tracking system: the uniform unit
/// that commands use to say what they touch and how.
#[derive(Clone, Copy, Debug, PartialEq, Eq, Structural)]
pub enum Resource {
    Buffer { buffer: u64, range: DeviceRange, memory: PipelineMemoryAccess },
    Image {
        image: u64,
        subresource_range: DeviceRange,
        memory: PipelineMemoryAccess,
        start_layout: ImageLayout,
        end_layout: ImageLayout,
    },
}

} // verus!
