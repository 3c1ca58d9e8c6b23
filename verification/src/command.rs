//! The closed set of recordable commands.
//!
//! Each command carries a diagnostic name and the data needed to replay it
//! into a native command stream once the buffer is finalized.  The set is
//! closed and known at design time, so commands are a tagged union dispatched
//! by `match` rather than an open class hierarchy.

use crate::flags::DeviceRange;
use crate::state::{DescriptorSet, PipelineBindPoint};
use vstd::prelude::*;

verus! {

/// A discrete unit of recorded work.
#[derive(Clone, Debug)]
pub enum Command {
    /// Fill `range` of `buffer` with a repeated word.
    FillBuffer { buffer: u64, range: DeviceRange, data: u32 },
    /// Copy `src_range` of `src_buffer` into `dst_range` of `dst_buffer`.
    CopyBuffer { src_buffer: u64, src_range: DeviceRange, dst_buffer: u64, dst_range: DeviceRange },
    /// Copy a subresource range of `src_image` into one of `dst_image`.
    CopyImage { src_image: u64, src_range: DeviceRange, dst_image: u64, dst_range: DeviceRange },
    /// Bind vertex buffers to consecutive binding slots starting at
    /// `first_binding`.
    BindVertexBuffers { first_binding: u32, buffers: Vec<u64> },
    /// Bind descriptor sets to consecutive set slots starting at `first_set`.
    BindDescriptorSets {
        bind_point: PipelineBindPoint,
        pipeline_layout: u64,
        first_set: u32,
        sets: Vec<DescriptorSet>,
    },
    /// Execute a batch of secondary command buffers, given by their native
    /// handles.
    ExecuteCommands { secondary: Vec<u64> },
}

impl Command {
    /// The command's user-facing name, for error reporting.
    pub fn name(&self) -> (r: &'static str)
        ensures
            r@ == self.spec_name(),
    {
        match self {
            Command::FillBuffer { .. } => "fill_buffer",
            Command::CopyBuffer { .. } => "copy_buffer",
            Command::CopyImage { .. } => "copy_image",
            Command::BindVertexBuffers { .. } => "bind_vertex_buffers",
            Command::BindDescriptorSets { .. } => "bind_descriptor_sets",
            Command::ExecuteCommands { .. } => "execute_commands",
        }
    }

    /// The characters of the command's name.
    pub open spec fn spec_name(&self) -> Seq<char> {
        match self {
            Command::FillBuffer { .. } => "fill_buffer"@,
            Command::CopyBuffer { .. } => "copy_buffer"@,
            Command::CopyImage { .. } => "copy_image"@,
            Command::BindVertexBuffers { .. } => "bind_vertex_buffers"@,
            Command::BindDescriptorSets { .. } => "bind_descriptor_sets"@,
            Command::ExecuteCommands { .. } => "execute_commands"@,
        }
    }
}

} // verus!
