//! The synchronization builder: the mutable, in-progress command buffer.
//!
//! Commands are recorded strictly in caller order.  For every resource a
//! command declares, the builder consults the tracked per-range state: a
//! first use is simply recorded; compatible reads (and, for images, reads in
//! an unchanged layout) merge; a conflicting access yields a barrier from the
//! prior access to the new one, merged into the pending prototype, and
//! replaces the tracked state.  The prototype batches across commands; it is
//! flushed into the native stream only when a hazard lies inside the
//! not-yet-flushed batch itself — the same range would otherwise need two
//! order-dependent barriers — and once more when building finalizes.
//!
//! Two declarations of one range by the *same* command merge without a
//! barrier: a barrier cannot be placed inside a command, so such a hazard is
//! left to the caller.

use crate::barrier::{BufferMemoryBarrier, EmittedBarrier, ImageMemoryBarrier, PendingBarrier};
use crate::command::Command;
use crate::errors::SyncCommandBufferBuilderError;
use crate::flags::{AccessFlags, DeviceRange, ImageLayout, PipelineMemoryAccess, PipelineStages};
use crate::range_map::RangeMap;
use crate::resource::{
    BufferRangeState, BufferUse, ImageRangeState, ImageUse, ParamName, Resource, ResourceUse,
};
use crate::state::{CommandBufferState, DescriptorSet, PipelineBindPoint, PipelineLayout};
use crate::synced::{
    SyncCommandBuffer, acc_buf_access, acc_buf_exclusive, acc_buf_hull, acc_buf_stages,
    acc_img_access, acc_img_exclusive, acc_img_first_layout, acc_img_hull, acc_img_last_layout,
    acc_img_stages, buf_enumeration_ok, buf_used, img_enumeration_ok, img_used,
};
use vstd::prelude::*;
use vstd::pervasive::VecAdditionalExecFns;

verus! {

/// The tracked state of a buffer range after command `idx` declares an
/// access `memory` through parameter `name`, given the prior state.
///
/// A first use records the access.  A repeat declaration by the same command
/// merges without a barrier (the intra-command gap).  Two reads merge, their
/// stage and access masks accumulating.  Anything else is a hazard: the new
/// access replaces the state, and a barrier is owed separately.
pub open spec fn next_buf_state(
    prev: Option<BufferRangeState>,
    idx: usize,
    name: ParamName,
    memory: PipelineMemoryAccess,
) -> BufferRangeState {
    match prev {
        None => BufferRangeState {
            first_use: ResourceUse { command_index: idx, name },
            stages: memory.stages,
            access: memory.access,
            exclusive: memory.exclusive,
            last_command: idx,
        },
        Some(s) => {
            if s.last_command == idx {
                BufferRangeState {
                    first_use: s.first_use,
                    stages: PipelineStages { bits: s.stages.bits | memory.stages.bits },
                    access: AccessFlags { bits: s.access.bits | memory.access.bits },
                    exclusive: s.exclusive || memory.exclusive,
                    last_command: idx,
                }
            } else if !s.exclusive && !memory.exclusive {
                BufferRangeState {
                    first_use: s.first_use,
                    stages: PipelineStages { bits: s.stages.bits | memory.stages.bits },
                    access: AccessFlags { bits: s.access.bits | memory.access.bits },
                    exclusive: false,
                    last_command: idx,
                }
            } else {
                BufferRangeState {
                    first_use: s.first_use,
                    stages: memory.stages,
                    access: memory.access,
                    exclusive: memory.exclusive,
                    last_command: idx,
                }
            }
        },
    }
}

/// True if declaring `memory` at command `idx` over a range in state `prev`
/// is a hazard that owes a barrier: a prior access by another command, where
/// either side is a write.
pub open spec fn buf_needs_barrier(
    prev: Option<BufferRangeState>,
    idx: usize,
    memory: PipelineMemoryAccess,
) -> bool {
    match prev {
        None => false,
        Some(s) => s.last_command != idx && (s.exclusive || memory.exclusive),
    }
}

/// True if the hazard's prior access is itself not yet flushed, so the
/// pending batch cannot order it and must be flushed first.
pub open spec fn buf_hazard_unflushed(
    prev: Option<BufferRangeState>,
    idx: usize,
    memory: PipelineMemoryAccess,
    fu: usize,
) -> bool {
    buf_needs_barrier(prev, idx, memory) && prev->0.last_command >= fu
}

/// The tracked state of an image range after command `idx` declares an
/// access, given the prior state.  Like [`next_buf_state`], except that two
/// reads merge only when the declared start layout equals the layout the
/// range is already in.
pub open spec fn next_img_state(
    prev: Option<ImageRangeState>,
    idx: usize,
    name: ParamName,
    memory: PipelineMemoryAccess,
    start_layout: ImageLayout,
    end_layout: ImageLayout,
) -> ImageRangeState {
    match prev {
        None => ImageRangeState {
            first_use: ResourceUse { command_index: idx, name },
            stages: memory.stages,
            access: memory.access,
            exclusive: memory.exclusive,
            last_command: idx,
            initial_layout: start_layout,
            final_layout: end_layout,
        },
        Some(s) => {
            if s.last_command == idx {
                ImageRangeState {
                    first_use: s.first_use,
                    stages: PipelineStages { bits: s.stages.bits | memory.stages.bits },
                    access: AccessFlags { bits: s.access.bits | memory.access.bits },
                    exclusive: s.exclusive || memory.exclusive,
                    last_command: idx,
                    initial_layout: s.initial_layout,
                    final_layout: end_layout,
                }
            } else if !s.exclusive && !memory.exclusive && s.final_layout == start_layout {
                ImageRangeState {
                    first_use: s.first_use,
                    stages: PipelineStages { bits: s.stages.bits | memory.stages.bits },
                    access: AccessFlags { bits: s.access.bits | memory.access.bits },
                    exclusive: false,
                    last_command: idx,
                    initial_layout: s.initial_layout,
                    final_layout: end_layout,
                }
            } else {
                ImageRangeState {
                    first_use: s.first_use,
                    stages: memory.stages,
                    access: memory.access,
                    exclusive: memory.exclusive,
                    last_command: idx,
                    initial_layout: s.initial_layout,
                    final_layout: end_layout,
                }
            }
        },
    }
}

/// True if declaring an image access at command `idx` over a range in state
/// `prev` owes a barrier: a prior access by another command where either
/// side writes, or a layout change is required.
pub open spec fn img_needs_barrier(
    prev: Option<ImageRangeState>,
    idx: usize,
    memory: PipelineMemoryAccess,
    start_layout: ImageLayout,
) -> bool {
    match prev {
        None => false,
        Some(s) => s.last_command != idx && (s.exclusive || memory.exclusive || s.final_layout
            != start_layout),
    }
}

/// True if the image hazard's prior access is not yet flushed.
pub open spec fn img_hazard_unflushed(
    prev: Option<ImageRangeState>,
    idx: usize,
    memory: PipelineMemoryAccess,
    start_layout: ImageLayout,
    fu: usize,
) -> bool {
    img_needs_barrier(prev, idx, memory, start_layout) && prev->0.last_command >= fu
}

/// True if `bar` is a barrier from the prior access `prev` to the new
/// access `memory`: source scopes from the old state, destination scopes
/// from the new one.
pub open spec fn buf_barrier_records(
    bar: Option<BufferMemoryBarrier>,
    prev: BufferRangeState,
    memory: PipelineMemoryAccess,
) -> bool {
    &&& bar is Some
    &&& bar->0.src_stages == prev.stages
    &&& bar->0.src_access == prev.access
    &&& bar->0.dst_stages == memory.stages
    &&& bar->0.dst_access == memory.access
}

/// True if `bar` is a barrier from the prior image access `prev` to the new
/// access `memory`, transitioning the range into `start_layout`.
pub open spec fn img_barrier_records(
    bar: Option<ImageMemoryBarrier>,
    prev: ImageRangeState,
    memory: PipelineMemoryAccess,
    start_layout: ImageLayout,
) -> bool {
    &&& bar is Some
    &&& bar->0.src_stages == prev.stages
    &&& bar->0.src_access == prev.access
    &&& bar->0.dst_stages == memory.stages
    &&& bar->0.dst_access == memory.access
    &&& bar->0.old_layout == prev.final_layout
    &&& bar->0.new_layout == start_layout
}

/// If every tracked point of a well-formed map carries bounded command
/// indices, so does every stored entry.
proof fn lemma_img_entries_bounded(rm: RangeMap<ImageRangeState>, len: int)
    requires
        rm.wf(),
        forall|k: int|
            (#[trigger] rm.at(k)) is Some ==> rm.at(k)->0.first_use.command_index < len && rm.at(
                k,
            )->0.last_command < len,
    ensures
        forall|j: int|
            0 <= j < rm.entries().len() ==> (#[trigger] rm.entries()[
            j]).value.first_use.command_index < len && rm.entries()[j].value.last_command < len,
{
    assert forall|j: int| 0 <= j < rm.entries().len() implies (#[trigger] rm.entries()[
    j]).value.first_use.command_index < len && rm.entries()[j].value.last_command < len by {
        rm.lemma_at_entry(j, rm.entries()[j].start as int);
        assert(rm.at(rm.entries()[j].start as int) == Some(rm.entries()[j].value));
    }
}

/// If every tracked point of a well-formed map carries bounded command
/// indices, so does every stored entry.
proof fn lemma_buf_entries_bounded(rm: RangeMap<BufferRangeState>, len: int)
    requires
        rm.wf(),
        forall|k: int|
            (#[trigger] rm.at(k)) is Some ==> rm.at(k)->0.first_use.command_index < len && rm.at(
                k,
            )->0.last_command < len,
    ensures
        forall|j: int|
            0 <= j < rm.entries().len() ==> (#[trigger] rm.entries()[
            j]).value.first_use.command_index < len && rm.entries()[j].value.last_command < len,
{
    assert forall|j: int| 0 <= j < rm.entries().len() implies (#[trigger] rm.entries()[
    j]).value.first_use.command_index < len && rm.entries()[j].value.last_command < len by {
        rm.lemma_at_entry(j, rm.entries()[j].start as int);
        assert(rm.at(rm.entries()[j].start as int) == Some(rm.entries()[j].value));
    }
}

/// The access a transfer command performs on its destination.
pub open spec fn transfer_write_access() -> PipelineMemoryAccess {
    PipelineMemoryAccess {
        stages: PipelineStages { bits: crate::flags::STAGE_TRANSFER },
        access: AccessFlags { bits: crate::flags::ACCESS_TRANSFER_WRITE },
        exclusive: true,
    }
}

/// The access a transfer command performs on its source.
pub open spec fn transfer_read_access() -> PipelineMemoryAccess {
    PipelineMemoryAccess {
        stages: PipelineStages { bits: crate::flags::STAGE_TRANSFER },
        access: AccessFlags { bits: crate::flags::ACCESS_TRANSFER_READ },
        exclusive: false,
    }
}

/// Pointwise evolution of a tracked buffer state under a list of resource
/// declarations, processed in order, all declared by command `idx`.
pub open spec fn decls_buf_tracked(
    decls: Seq<Resource>,
    prev: Option<BufferRangeState>,
    b: u64,
    k: int,
    idx: usize,
) -> Option<BufferRangeState>
    decreases decls.len(),
{
    if decls.len() == 0 {
        prev
    } else {
        let sofar = decls_buf_tracked(decls.drop_last(), prev, b, k, idx);
        match decls.last() {
            Resource::Buffer { buffer, range, memory } => {
                if buffer == b && range.spec_contains(k) {
                    Some(next_buf_state(sofar, idx, ParamName::SecondaryCommandBuffer, memory))
                } else {
                    sofar
                }
            },
            Resource::Image { .. } => sofar,
        }
    }
}

/// Pointwise evolution of a tracked image state under a list of resource
/// declarations, processed in order, all declared by command `idx`.
pub open spec fn decls_img_tracked(
    decls: Seq<Resource>,
    prev: Option<ImageRangeState>,
    b: u64,
    k: int,
    idx: usize,
) -> Option<ImageRangeState>
    decreases decls.len(),
{
    if decls.len() == 0 {
        prev
    } else {
        let sofar = decls_img_tracked(decls.drop_last(), prev, b, k, idx);
        match decls.last() {
            Resource::Image { image, subresource_range, memory, start_layout, end_layout } => {
                if image == b && subresource_range.spec_contains(k) {
                    Some(
                        next_img_state(
                            sofar,
                            idx,
                            ParamName::SecondaryCommandBuffer,
                            memory,
                            start_layout,
                            end_layout,
                        ),
                    )
                } else {
                    sofar
                }
            },
            Resource::Buffer { .. } => sofar,
        }
    }
}

/// True if no point of `range` currently owes a barrier for an access
/// `memory` by command `idx`, judged against the states in `rm`.
pub open spec fn no_buf_conflicts(
    rm: RangeMap<BufferRangeState>,
    range: DeviceRange,
    idx: usize,
    memory: PipelineMemoryAccess,
) -> bool {
    forall|k: int|
        range.spec_contains(k) ==> !buf_needs_barrier(#[trigger] rm.at(k), idx, memory)
}

/// True if no point of `range` currently owes an image barrier.
pub open spec fn no_img_conflicts(
    rm: RangeMap<ImageRangeState>,
    range: DeviceRange,
    idx: usize,
    memory: PipelineMemoryAccess,
    start_layout: ImageLayout,
) -> bool {
    forall|k: int|
        range.spec_contains(k) ==> !img_needs_barrier(
            #[trigger] rm.at(k),
            idx,
            memory,
            start_layout,
        )
}

/// A declaration list leaves a point's state either untouched or stamped
/// with the declaring command's index.
proof fn lemma_decls_buf_tracked_shape(
    decls: Seq<Resource>,
    prev: Option<BufferRangeState>,
    b: u64,
    k: int,
    idx: usize,
)
    ensures
        decls_buf_tracked(decls, prev, b, k, idx) == prev || (decls_buf_tracked(
            decls,
            prev,
            b,
            k,
            idx,
        ) is Some && decls_buf_tracked(decls, prev, b, k, idx)->0.last_command == idx),
    decreases decls.len(),
{
    if decls.len() > 0 {
        lemma_decls_buf_tracked_shape(decls.drop_last(), prev, b, k, idx);
    }
}

/// A declaration list leaves a point's image state either untouched or
/// stamped with the declaring command's index.
proof fn lemma_decls_img_tracked_shape(
    decls: Seq<Resource>,
    prev: Option<ImageRangeState>,
    b: u64,
    k: int,
    idx: usize,
)
    ensures
        decls_img_tracked(decls, prev, b, k, idx) == prev || (decls_img_tracked(
            decls,
            prev,
            b,
            k,
            idx,
        ) is Some && decls_img_tracked(decls, prev, b, k, idx)->0.last_command == idx),
    decreases decls.len(),
{
    if decls.len() > 0 {
        lemma_decls_img_tracked_shape(decls.drop_last(), prev, b, k, idx);
    }
}

/// How a flush extends the batch-boundary list: the start of the batch being
/// closed (unless already recorded) and the start of the new batch.
pub open spec fn flush_boundaries(bs: Seq<usize>, fu: usize, idx: usize) -> Seq<usize> {
    (if bs.len() > 0 && bs.last() == fu {
        bs
    } else {
        bs.push(fu)
    }).push(idx)
}

/// Bitwise union with the empty mask changes nothing.
proof fn lemma_or_zero(x: u32)
    ensures
        x | 0 == x,
        0 | x == x,
{
    assert(x | 0 == x) by (bit_vector);
    assert(0 | x == x) by (bit_vector);
}

/// A buffer never declared accumulates nothing.
proof fn lemma_acc_buf_unused(uses: Seq<BufferUse>, id: u64)
    requires
        !buf_used(uses, id),
    ensures
        acc_buf_stages(uses, id) == 0,
        acc_buf_access(uses, id) == 0,
        !acc_buf_exclusive(uses, id),
    decreases uses.len(),
{
    if uses.len() > 0 {
        lemma_acc_buf_unused(uses.drop_last(), id);
        lemma_or_zero(0);
    }
}

/// An image never declared accumulates nothing.
proof fn lemma_acc_img_unused(uses: Seq<ImageUse>, id: u64)
    requires
        !img_used(uses, id),
    ensures
        acc_img_stages(uses, id) == 0,
        acc_img_access(uses, id) == 0,
        !acc_img_exclusive(uses, id),
    decreases uses.len(),
{
    if uses.len() > 0 {
        lemma_acc_img_unused(uses.drop_last(), id);
        lemma_or_zero(0);
    }
}

/// Pushing one more declared use extends every accumulator of [`buf_used`],
/// [`acc_buf_stages`] and their companions by exactly that use.
pub proof fn lemma_acc_buf_push(uses: Seq<BufferUse>, u: BufferUse, id: u64)
    ensures
        buf_used(uses.push(u), id) == (buf_used(uses, id) || u.buffer == id),
        u.buffer == id ==> acc_buf_stages(uses.push(u), id) == acc_buf_stages(uses, id)
            | u.memory.stages.bits,
        u.buffer != id ==> acc_buf_stages(uses.push(u), id) == acc_buf_stages(uses, id),
        u.buffer == id ==> acc_buf_access(uses.push(u), id) == acc_buf_access(uses, id)
            | u.memory.access.bits,
        u.buffer != id ==> acc_buf_access(uses.push(u), id) == acc_buf_access(uses, id),
        acc_buf_exclusive(uses.push(u), id) == (acc_buf_exclusive(uses, id) || (u.buffer == id
            && u.memory.exclusive)),
        u.buffer == id && buf_used(uses, id) ==> acc_buf_hull(uses.push(u), id) == (DeviceRange {
            start: if acc_buf_hull(uses, id).start <= u.range.start {
                acc_buf_hull(uses, id).start
            } else {
                u.range.start
            },
            end: if acc_buf_hull(uses, id).end >= u.range.end {
                acc_buf_hull(uses, id).end
            } else {
                u.range.end
            },
        }),
        u.buffer == id && !buf_used(uses, id) ==> acc_buf_hull(uses.push(u), id) == u.range,
        u.buffer != id ==> acc_buf_hull(uses.push(u), id) == acc_buf_hull(uses, id),
{
    assert(uses.push(u).drop_last() =~= uses);
    assert(uses.push(u).last() == u);
    lemma_or_zero(acc_buf_stages(uses, id));
    lemma_or_zero(acc_buf_access(uses, id));
}

/// Pushing one more declared use extends every image accumulator by exactly
/// that use.
pub proof fn lemma_acc_img_push(uses: Seq<ImageUse>, u: ImageUse, id: u64)
    ensures
        img_used(uses.push(u), id) == (img_used(uses, id) || u.image == id),
        u.image == id ==> acc_img_stages(uses.push(u), id) == acc_img_stages(uses, id)
            | u.memory.stages.bits,
        u.image != id ==> acc_img_stages(uses.push(u), id) == acc_img_stages(uses, id),
        u.image == id ==> acc_img_access(uses.push(u), id) == acc_img_access(uses, id)
            | u.memory.access.bits,
        u.image != id ==> acc_img_access(uses.push(u), id) == acc_img_access(uses, id),
        acc_img_exclusive(uses.push(u), id) == (acc_img_exclusive(uses, id) || (u.image == id
            && u.memory.exclusive)),
        u.image == id && img_used(uses, id) ==> acc_img_hull(uses.push(u), id) == (DeviceRange {
            start: if acc_img_hull(uses, id).start <= u.range.start {
                acc_img_hull(uses, id).start
            } else {
                u.range.start
            },
            end: if acc_img_hull(uses, id).end >= u.range.end {
                acc_img_hull(uses, id).end
            } else {
                u.range.end
            },
        }),
        u.image == id && !img_used(uses, id) ==> acc_img_hull(uses.push(u), id) == u.range,
        u.image != id ==> acc_img_hull(uses.push(u), id) == acc_img_hull(uses, id),
        img_used(uses, id) ==> acc_img_first_layout(uses.push(u), id) == acc_img_first_layout(
            uses,
            id,
        ),
        !img_used(uses, id) && u.image == id ==> acc_img_first_layout(uses.push(u), id)
            == u.start_layout,
        !img_used(uses, id) && u.image != id ==> acc_img_first_layout(uses.push(u), id)
            == ImageLayout::Undefined,
        u.image == id ==> acc_img_last_layout(uses.push(u), id) == u.end_layout,
        u.image != id ==> acc_img_last_layout(uses.push(u), id) == acc_img_last_layout(uses, id),
{
    assert(uses.push(u).drop_last() =~= uses);
    assert(uses.push(u).last() == u);
    lemma_or_zero(acc_img_stages(uses, id));
    lemma_or_zero(acc_img_access(uses, id));
}


/// Carries the walk's results over the reassembled builder: establishes the
/// invariant and the pointwise contract of one recorded buffer access.
#[verifier::rlimit(100)]
#[verifier::spinoff_prover]
proof fn lemma_apply_buf_finish(
    o: SyncCommandBufferBuilder,
    mid: SyncCommandBufferBuilder,
    fin: SyncCommandBufferBuilder,
    idxe: int,
    buffer: u64,
    idx: usize,
    name: ParamName,
    range: DeviceRange,
    memory: PipelineMemoryAccess,
    rm_orig: RangeMap<BufferRangeState>,
    rm1: RangeMap<BufferRangeState>,
    rm: RangeMap<BufferRangeState>,
    pending0: PendingBarrier,
    fu0: usize,
)
    requires
        mid.wf_core(),
        forall|i: int|
            0 <= i < mid.buf_entries().len() && i != idxe ==> (#[trigger] mid.buf_entries()[
            i]).1.entries().len() > 0,
        forall|i: int|
            0 <= i < mid.img_entries().len() ==> (#[trigger] mid.img_entries()[
            i]).1.entries().len() > 0,
        range.wf(),
        idx < mid.spec_commands().len(),
        fu0 == mid.spec_first_unflushed(),
        fu0 <= idx,
        0 <= idxe < mid.buf_entries().len(),
        mid.buf_entries()[idxe].0 == buffer,
        mid.buf_entries()[idxe].1 == rm_orig,
        pending0 == mid.spec_pending(),
        // how `fin` was assembled
        fin.buf_entries().len() == mid.buf_entries().len(),
        forall|j: int|
            0 <= j < fin.buf_entries().len() && j != idxe ==> #[trigger] fin.buf_entries()[j]
                == mid.buf_entries()[j],
        fin.buf_entries()[idxe].0 == buffer,
        fin.buf_entries()[idxe].1 == rm,
        fin.img_entries() == mid.img_entries(),
        fin.spec_commands() == mid.spec_commands(),
        fin.spec_first_unflushed() == fu0,
        fin.spec_buffers() == mid.spec_buffers(),
        fin.spec_images() == mid.spec_images(),
        fin.spec_buffer_uses() == mid.spec_buffer_uses(),
        fin.spec_image_uses() == mid.spec_image_uses(),
        // how `mid` relates to the caller's view `o`
        forall|b: u64, k: int| #[trigger] mid.buf_tracked(b, k) == o.buf_tracked(b, k),
        forall|b: u64, k: int| #[trigger] mid.img_tracked(b, k) == o.img_tracked(b, k),
        mid.spec_pending() == o.spec_pending(),
        mid.spec_first_unflushed() == o.spec_first_unflushed(),
        // the walk's results
        rm.wf(),
        rm1.wf(),
        forall|k: int|
            range.spec_contains(k) ==> rm.at(k) == Some(
                next_buf_state(rm1.at(k), idx, name, memory),
            ),
        forall|k: int| !range.spec_contains(k) ==> rm.at(k) == rm1.at(k),
        forall|k: int| #[trigger] rm1.at(k) == o.buf_tracked(buffer, k),
        fin.spec_pending().wf(),
        forall|k: int|
            #![trigger fin.spec_pending().buf_at(buffer, k)]
            range.spec_contains(k) && rm1.at(k) is Some && buf_needs_barrier(
                rm1.at(k),
                idx,
                memory,
            ) ==> buf_barrier_records(
                fin.spec_pending().buf_at(buffer, k),
                rm1.at(k)->0,
                memory,
            ),
        forall|b: u64, k: int|
            !(b == buffer && range.spec_contains(k) && rm1.at(k) is Some && buf_needs_barrier(
                rm1.at(k),
                idx,
                memory,
            )) ==> #[trigger] fin.spec_pending().buf_at(b, k) == pending0.buf_at(b, k),
        forall|b: u64, k: int|
            #[trigger] fin.spec_pending().img_at(b, k) == pending0.img_at(b, k),
    ensures
        fin.wf(),
        forall|k: int|
            range.spec_contains(k) ==> fin.buf_tracked(buffer, k) == Some(
                next_buf_state(o.buf_tracked(buffer, k), idx, name, memory),
            ),
        forall|b: u64, k: int|
            !(b == buffer && range.spec_contains(k)) ==> fin.buf_tracked(b, k) == o.buf_tracked(
                b,
                k,
            ),
        forall|b: u64, k: int| fin.img_tracked(b, k) == o.img_tracked(b, k),
        forall|k: int|
            #![trigger fin.spec_pending().buf_at(buffer, k)]
            range.spec_contains(k) && buf_needs_barrier(o.buf_tracked(buffer, k), idx, memory)
                ==> buf_barrier_records(
                fin.spec_pending().buf_at(buffer, k),
                o.buf_tracked(buffer, k)->0,
                memory,
            ),
        forall|b: u64, k: int|
            !(b == buffer && range.spec_contains(k) && buf_needs_barrier(
                o.buf_tracked(b, k),
                idx,
                memory,
            )) ==> fin.spec_pending().buf_at(b, k) == o.spec_pending().buf_at(b, k),
        forall|b: u64, k: int| fin.spec_pending().img_at(b, k) == o.spec_pending().img_at(b, k),
{
    mid.lemma_buf_lookup(idxe);
    assert(forall|k: int| mid.buf_tracked(buffer, k) == #[trigger] rm_orig.at(k));
    assert forall|k: int| (#[trigger] rm_orig.at(k)) is Some implies rm_orig.at(
        k,
    )->0.first_use.command_index < mid.spec_commands().len() && rm_orig.at(k)->0.last_command
        < mid.spec_commands().len() by {
        if rm_orig.covers(k) {
            let j = rm_orig.index_of(k);
            assert(mid.buf_entries()[idxe].1.entries()[j] == rm_orig.entries()[j]);
        }
    }

            
            assert(fin.buf_entries().len() == mid.buf_entries().len());
            assert(forall|j: int|
                0 <= j < fin.buf_entries().len() && j != idxe ==> #[trigger] fin.buf_entries()[j]
                    == mid.buf_entries()[j]);
            assert(fin.buf_entries()[idxe as int].0 == buffer);
            assert(fin.buf_entries()[idxe as int].1 == rm);
            fin.lemma_buf_lookup(idxe as int);
            // Pointwise tracked-state ensures.
            assert forall|k: int| range.spec_contains(k) implies fin.buf_tracked(buffer, k) == Some(
                next_buf_state(o.buf_tracked(buffer, k), idx, name, memory),
            ) by {
                assert(rm.at(k) == Some(next_buf_state(rm1.at(k), idx, name, memory)));
                assert(rm1.at(k) == o.buf_tracked(buffer, k));
            }
            assert forall|b: u64, k: int|
                !(b == buffer && range.spec_contains(k)) implies fin.buf_tracked(b, k) == o.buf_tracked(b, k) by {
                assert(mid.buf_tracked(b, k) == o.buf_tracked(b, k));
                if b == buffer {
                    assert(rm.at(k) == rm1.at(k));
                } else {
                    if mid.spec_has_buffer(b) {
                        let j = mid.buf_idx(b);
                        mid.lemma_buf_lookup(j);
                        fin.lemma_buf_lookup(j);
                    } else {
                        assert(!fin.spec_has_buffer(b));
                    }
                }
            }
            assert forall|b: u64, k: int| fin.img_tracked(b, k) == o.img_tracked(
                b,
                k,
            ) by {
                assert(mid.img_tracked(b, k) == o.img_tracked(b, k));
                assert(fin.img_entries() == mid.img_entries());
            }
            // Carry the pending-barrier facts over to the frozen view.
            assert forall|k: int|
                #![trigger fin.spec_pending().buf_at(buffer, k)]
                range.spec_contains(k) && buf_needs_barrier(
                    o.buf_tracked(buffer, k),
                    idx,
                    memory,
                ) implies buf_barrier_records(
                fin.spec_pending().buf_at(buffer, k),
                o.buf_tracked(buffer, k)->0,
                memory,
            ) by {
                assert(rm1.at(k) == o.buf_tracked(buffer, k));
                
                assert(buf_barrier_records(
                    fin.spec_pending().buf_at(buffer, k),
                    rm1.at(k)->0,
                    memory,
                ));
            }
            assert forall|b: u64, k: int|
                !(b == buffer && range.spec_contains(k) && buf_needs_barrier(
                    o.buf_tracked(b, k),
                    idx,
                    memory,
                )) implies fin.spec_pending().buf_at(b, k) == o.spec_pending().buf_at(
                b,
                k,
            ) by {
                if b == buffer && range.spec_contains(k) {
                    assert(rm1.at(k) == o.buf_tracked(buffer, k));
                }
            }
            // Re-establish the builder invariant.
            assert(fin.spec_pending().wf());
            assert forall|i2: int, j2: int|
                #![trigger fin.buf_entries()[i2].1.entries()[j2]]
                0 <= i2 < fin.buf_entries().len() && 0 <= j2 < fin.buf_entries()[
                    i2].1.entries().len() implies fin.buf_entries()[
            i2].1.entries()[j2].value.first_use.command_index < fin.spec_commands().len()
                && fin.buf_entries()[i2].1.entries()[j2].value.last_command
                < fin.spec_commands().len() by {
                if i2 == idxe {
                    assert forall|k: int| (#[trigger] rm.at(k)) is Some implies rm.at(
                        k,
                    )->0.first_use.command_index < fin.spec_commands().len() && rm.at(
                        k,
                    )->0.last_command < fin.spec_commands().len() by {
                        if range.spec_contains(k) {
                            assert(fin.buf_tracked(buffer, k) == Some(
                                next_buf_state(
                                    o.buf_tracked(buffer, k),
                                    idx,
                                    name,
                                    memory,
                                ),
                            ));
                        } else {
                            assert(rm.at(k) == rm1.at(k));
                            assert(rm1.at(k) == rm_orig.at(k));
                        }
                    }
                    lemma_buf_entries_bounded(rm, fin.spec_commands().len() as int);
                } else {
                    assert(fin.buf_entries()[i2] == mid.buf_entries()[i2]);
                }
            }
            assert forall|b: u64, k: int|
                (#[trigger] fin.spec_pending().buf_at(b, k)) is Some implies fin.buf_tracked(b, k)
                is Some && fin.buf_tracked(b, k)->0.last_command >= fin.spec_first_unflushed() by {
                if b == buffer && range.spec_contains(k) && rm1.at(k) is Some && buf_needs_barrier(
                    rm1.at(k),
                    idx,
                    memory,
                ) {
                    assert(fin.buf_tracked(buffer, k) == Some(
                        next_buf_state(o.buf_tracked(buffer, k), idx, name, memory),
                    ));
                } else {
                    assert(fin.spec_pending().buf_at(b, k) == pending0.buf_at(b, k));
                    assert(mid.buf_tracked(b, k) is Some && mid.buf_tracked(b, k)->0.last_command
                        >= fu0);
                    if b == buffer {
                        if range.spec_contains(k) {
                            assert(fin.buf_tracked(buffer, k) == Some(
                                next_buf_state(rm1.at(k), idx, name, memory),
                            ));
                        } else {
                            assert(fin.buf_tracked(b, k) == mid.buf_tracked(b, k));
                        }
                    } else {
                        assert(fin.buf_tracked(b, k) == mid.buf_tracked(b, k));
                    }
                }
            }
            assert forall|b: u64, k: int|
                (#[trigger] fin.spec_pending().img_at(b, k)) is Some implies fin.img_tracked(b, k)
                is Some && fin.img_tracked(b, k)->0.last_command >= fin.spec_first_unflushed() by {
                assert(fin.spec_pending().img_at(b, k) == pending0.img_at(b, k));
                assert(fin.img_tracked(b, k) == mid.img_tracked(b, k));
            }
            assert(rm.entries().len() > 0) by {
                assert(rm.at(range.start as int) is Some);
                if rm.entries().len() == 0 {
                    assert(!rm.covers(range.start as int));
                }
            }
            assert(fin.tracked_nonempty()) by {
                assert forall|i: int|
                    0 <= i < fin.buf_entries().len() implies (#[trigger] fin.buf_entries()[
                i]).1.entries().len() > 0 by {
                    if i != idxe {
                        assert(fin.buf_entries()[i] == mid.buf_entries()[i]);
                    }
                }
                assert(forall|i: int|
                    0 <= i < fin.img_entries().len() ==> (#[trigger] fin.img_entries()[
                    i]).1.entries().len() > 0);
            }
            assert(fin.wf());

}

/// Carries the walk's results over the reassembled builder: establishes the
/// invariant and the pointwise contract of one recorded image access.
#[verifier::rlimit(100)]
#[verifier::spinoff_prover]
proof fn lemma_apply_img_finish(
    o: SyncCommandBufferBuilder,
    mid: SyncCommandBufferBuilder,
    fin: SyncCommandBufferBuilder,
    idxe: int,
    image: u64,
    idx: usize,
    name: ParamName,
    range: DeviceRange,
    memory: PipelineMemoryAccess,
    start_layout: ImageLayout,
    end_layout: ImageLayout,
    rm_orig: RangeMap<ImageRangeState>,
    rm1: RangeMap<ImageRangeState>,
    rm: RangeMap<ImageRangeState>,
    pending0: PendingBarrier,
    fu0: usize,
)
    requires
        mid.wf_core(),
        forall|i: int|
            0 <= i < mid.buf_entries().len() ==> (#[trigger] mid.buf_entries()[
            i]).1.entries().len() > 0,
        forall|i: int|
            0 <= i < mid.img_entries().len() && i != idxe ==> (#[trigger] mid.img_entries()[
            i]).1.entries().len() > 0,
        range.wf(),
        idx < mid.spec_commands().len(),
        fu0 == mid.spec_first_unflushed(),
        fu0 <= idx,
        0 <= idxe < mid.img_entries().len(),
        mid.img_entries()[idxe].0 == image,
        mid.img_entries()[idxe].1 == rm_orig,
        pending0 == mid.spec_pending(),
        // how `fin` was assembled
        fin.img_entries().len() == mid.img_entries().len(),
        forall|j: int|
            0 <= j < fin.img_entries().len() && j != idxe ==> #[trigger] fin.img_entries()[j]
                == mid.img_entries()[j],
        fin.img_entries()[idxe].0 == image,
        fin.img_entries()[idxe].1 == rm,
        fin.buf_entries() == mid.buf_entries(),
        fin.spec_commands() == mid.spec_commands(),
        fin.spec_first_unflushed() == fu0,
        fin.spec_buffers() == mid.spec_buffers(),
        fin.spec_images() == mid.spec_images(),
        fin.spec_buffer_uses() == mid.spec_buffer_uses(),
        fin.spec_image_uses() == mid.spec_image_uses(),
        // how `mid` relates to the caller's view `o`
        forall|b: u64, k: int| #[trigger] mid.img_tracked(b, k) == o.img_tracked(b, k),
        forall|b: u64, k: int| #[trigger] mid.buf_tracked(b, k) == o.buf_tracked(b, k),
        mid.spec_pending() == o.spec_pending(),
        mid.spec_first_unflushed() == o.spec_first_unflushed(),
        // the walk's results
        rm.wf(),
        rm1.wf(),
        forall|k: int|
            range.spec_contains(k) ==> rm.at(k) == Some(
                next_img_state(rm1.at(k), idx, name, memory, start_layout, end_layout),
            ),
        forall|k: int| !range.spec_contains(k) ==> rm.at(k) == rm1.at(k),
        forall|k: int| #[trigger] rm1.at(k) == o.img_tracked(image, k),
        fin.spec_pending().wf(),
        forall|k: int|
            #![trigger fin.spec_pending().img_at(image, k)]
            range.spec_contains(k) && rm1.at(k) is Some && img_needs_barrier(
                rm1.at(k),
                idx,
                memory,
                start_layout,
            ) ==> img_barrier_records(
                fin.spec_pending().img_at(image, k),
                rm1.at(k)->0,
                memory,
                start_layout,
            ),
        forall|b: u64, k: int|
            !(b == image && range.spec_contains(k) && rm1.at(k) is Some && img_needs_barrier(
                rm1.at(k),
                idx,
                memory,
                start_layout,
            )) ==> #[trigger] fin.spec_pending().img_at(b, k) == pending0.img_at(b, k),
        forall|b: u64, k: int|
            #[trigger] fin.spec_pending().buf_at(b, k) == pending0.buf_at(b, k),
    ensures
        fin.wf(),
        forall|k: int|
            range.spec_contains(k) ==> fin.img_tracked(image, k) == Some(
                next_img_state(o.img_tracked(image, k), idx, name, memory, start_layout, end_layout),
            ),
        forall|b: u64, k: int|
            !(b == image && range.spec_contains(k)) ==> fin.img_tracked(b, k) == o.img_tracked(
                b,
                k,
            ),
        forall|b: u64, k: int| fin.buf_tracked(b, k) == o.buf_tracked(b, k),
        forall|k: int|
            #![trigger fin.spec_pending().img_at(image, k)]
            range.spec_contains(k) && img_needs_barrier(o.img_tracked(image, k), idx, memory, start_layout)
                ==> img_barrier_records(
                fin.spec_pending().img_at(image, k),
                o.img_tracked(image, k)->0,
                memory,
                start_layout,
            ),
        forall|b: u64, k: int|
            !(b == image && range.spec_contains(k) && img_needs_barrier(
                o.img_tracked(b, k),
                idx,
                memory,
                start_layout,
            )) ==> fin.spec_pending().img_at(b, k) == o.spec_pending().img_at(b, k),
        forall|b: u64, k: int| fin.spec_pending().buf_at(b, k) == o.spec_pending().buf_at(b, k),
{
    mid.lemma_img_lookup(idxe);
    assert(forall|k: int| mid.img_tracked(image, k) == #[trigger] rm_orig.at(k));
    assert forall|k: int| (#[trigger] rm_orig.at(k)) is Some implies rm_orig.at(
        k,
    )->0.first_use.command_index < mid.spec_commands().len() && rm_orig.at(k)->0.last_command
        < mid.spec_commands().len() by {
        if rm_orig.covers(k) {
            let j = rm_orig.index_of(k);
            assert(mid.img_entries()[idxe].1.entries()[j] == rm_orig.entries()[j]);
        }
    }

            
            assert(fin.img_entries().len() == mid.img_entries().len());
            assert(forall|j: int|
                0 <= j < fin.img_entries().len() && j != idxe ==> #[trigger] fin.img_entries()[j]
                    == mid.img_entries()[j]);
            assert(fin.img_entries()[idxe as int].0 == image);
            assert(fin.img_entries()[idxe as int].1 == rm);
            fin.lemma_img_lookup(idxe as int);
            // Pointwise tracked-state ensures.
            assert forall|k: int| range.spec_contains(k) implies fin.img_tracked(image, k) == Some(
                next_img_state(o.img_tracked(image, k), idx, name, memory, start_layout, end_layout),
            ) by {
                assert(rm.at(k) == Some(next_img_state(rm1.at(k), idx, name, memory, start_layout, end_layout)));
                assert(rm1.at(k) == o.img_tracked(image, k));
            }
            assert forall|b: u64, k: int|
                !(b == image && range.spec_contains(k)) implies fin.img_tracked(b, k) == o.img_tracked(b, k) by {
                assert(mid.img_tracked(b, k) == o.img_tracked(b, k));
                if b == image {
                    assert(rm.at(k) == rm1.at(k));
                } else {
                    if mid.spec_has_image(b) {
                        let j = mid.img_idx(b);
                        mid.lemma_img_lookup(j);
                        fin.lemma_img_lookup(j);
                    } else {
                        assert(!fin.spec_has_image(b));
                    }
                }
            }
            assert forall|b: u64, k: int| fin.buf_tracked(b, k) == o.buf_tracked(
                b,
                k,
            ) by {
                assert(mid.buf_tracked(b, k) == o.buf_tracked(b, k));
                assert(fin.buf_entries() == mid.buf_entries());
            }
            // Carry the pending-barrier facts over to the frozen view.
            assert forall|k: int|
                #![trigger fin.spec_pending().img_at(image, k)]
                range.spec_contains(k) && img_needs_barrier(
                    o.img_tracked(image, k),
                    idx,
                    memory,
                    start_layout,
                ) implies img_barrier_records(
                fin.spec_pending().img_at(image, k),
                o.img_tracked(image, k)->0,
                memory,
                start_layout,
            ) by {
                assert(rm1.at(k) == o.img_tracked(image, k));
                
                assert(img_barrier_records(
                    fin.spec_pending().img_at(image, k),
                    rm1.at(k)->0,
                    memory,
                    start_layout,
                ));
            }
            assert forall|b: u64, k: int|
                !(b == image && range.spec_contains(k) && img_needs_barrier(
                    o.img_tracked(b, k),
                    idx,
                    memory,
                    start_layout,
                )) implies fin.spec_pending().img_at(b, k) == o.spec_pending().img_at(
                b,
                k,
            ) by {
                if b == image && range.spec_contains(k) {
                    assert(rm1.at(k) == o.img_tracked(image, k));
                }
            }
            // Re-establish the builder invariant.
            assert(fin.spec_pending().wf());
            assert forall|i2: int, j2: int|
                #![trigger fin.img_entries()[i2].1.entries()[j2]]
                0 <= i2 < fin.img_entries().len() && 0 <= j2 < fin.img_entries()[
                    i2].1.entries().len() implies fin.img_entries()[
            i2].1.entries()[j2].value.first_use.command_index < fin.spec_commands().len()
                && fin.img_entries()[i2].1.entries()[j2].value.last_command
                < fin.spec_commands().len() by {
                if i2 == idxe {
                    assert forall|k: int| (#[trigger] rm.at(k)) is Some implies rm.at(
                        k,
                    )->0.first_use.command_index < fin.spec_commands().len() && rm.at(
                        k,
                    )->0.last_command < fin.spec_commands().len() by {
                        if range.spec_contains(k) {
                            assert(fin.img_tracked(image, k) == Some(
                                next_img_state(
                                    o.img_tracked(image, k),
                                    idx,
                                    name,
                                    memory,
                                    start_layout,
                                    end_layout,
                                ),
                            ));
                        } else {
                            assert(rm.at(k) == rm1.at(k));
                            assert(rm1.at(k) == rm_orig.at(k));
                        }
                    }
                    lemma_img_entries_bounded(rm, fin.spec_commands().len() as int);
                } else {
                    assert(fin.img_entries()[i2] == mid.img_entries()[i2]);
                }
            }
            assert forall|b: u64, k: int|
                (#[trigger] fin.spec_pending().img_at(b, k)) is Some implies fin.img_tracked(b, k)
                is Some && fin.img_tracked(b, k)->0.last_command >= fin.spec_first_unflushed() by {
                if b == image && range.spec_contains(k) && rm1.at(k) is Some && img_needs_barrier(
                    rm1.at(k),
                    idx,
                    memory,
                    start_layout,
                ) {
                    assert(fin.img_tracked(image, k) == Some(
                        next_img_state(o.img_tracked(image, k), idx, name, memory, start_layout, end_layout),
                    ));
                } else {
                    assert(fin.spec_pending().img_at(b, k) == pending0.img_at(b, k));
                    assert(mid.img_tracked(b, k) is Some && mid.img_tracked(b, k)->0.last_command
                        >= fu0);
                    if b == image {
                        if range.spec_contains(k) {
                            assert(fin.img_tracked(image, k) == Some(
                                next_img_state(rm1.at(k), idx, name, memory, start_layout, end_layout),
                            ));
                        } else {
                            assert(fin.img_tracked(b, k) == mid.img_tracked(b, k));
                        }
                    } else {
                        assert(fin.img_tracked(b, k) == mid.img_tracked(b, k));
                    }
                }
            }
            assert forall|b: u64, k: int|
                (#[trigger] fin.spec_pending().buf_at(b, k)) is Some implies fin.buf_tracked(b, k)
                is Some && fin.buf_tracked(b, k)->0.last_command >= fin.spec_first_unflushed() by {
                assert(fin.spec_pending().buf_at(b, k) == pending0.buf_at(b, k));
                assert(fin.buf_tracked(b, k) == mid.buf_tracked(b, k));
            }
            assert(rm.entries().len() > 0) by {
                assert(rm.at(range.start as int) is Some);
                if rm.entries().len() == 0 {
                    assert(!rm.covers(range.start as int));
                }
            }
            assert(fin.tracked_nonempty()) by {
                assert forall|i: int|
                    0 <= i < fin.img_entries().len() implies (#[trigger] fin.img_entries()[
                i]).1.entries().len() > 0 by {
                    if i != idxe {
                        assert(fin.img_entries()[i] == mid.img_entries()[i]);
                    }
                }
                assert(forall|i: int|
                    0 <= i < fin.buf_entries().len() ==> (#[trigger] fin.buf_entries()[
                    i]).1.entries().len() > 0);
            }
            assert(fin.wf());

}


/// The in-progress command buffer with automatic hazard tracking.
pub struct SyncCommandBufferBuilder {
    /// Native command buffer handle being recorded into.
    inner: u64,
    /// Commands recorded so far.
    commands: Vec<Command>,
    /// Batch boundaries: see [`SyncCommandBuffer`].
    barriers: Vec<usize>,
    /// Index of the first command not yet flushed into the native stream.
    first_unflushed: usize,
    /// The accumulating barrier prototype, standing in front of the
    /// unflushed commands.
    pending_barrier: PendingBarrier,
    /// Barriers already flushed into the native stream.
    emitted_barriers: Vec<EmittedBarrier>,
    /// Tracked per-range state of every buffer.
    buffers2: Vec<(u64, RangeMap<BufferRangeState>)>,
    /// Tracked per-range state of every image.
    images2: Vec<(u64, RangeMap<ImageRangeState>)>,
    /// One entry per distinct buffer: covering range and accumulated access.
    buffers: Vec<(u64, DeviceRange, PipelineMemoryAccess)>,
    /// One entry per distinct image: covering range, accumulated access, and
    /// first start / last end layouts.
    images: Vec<(u64, DeviceRange, PipelineMemoryAccess, ImageLayout, ImageLayout)>,
    /// Every declared buffer access, in recording order.
    buffer_uses: Vec<BufferUse>,
    /// Every declared image access, in recording order.
    image_uses: Vec<ImageUse>,
    /// Current binding state.
    state: CommandBufferState,
    /// The first malformed declaration seen, if any; reported at build time.
    error: Option<SyncCommandBufferBuilderError>,
}

impl SyncCommandBufferBuilder {
    /// The recorded commands.
    pub closed spec fn spec_commands(&self) -> Seq<Command> {
        self.commands@
    }

    /// The batch boundaries.
    pub closed spec fn spec_barriers(&self) -> Seq<usize> {
        self.barriers@
    }

    /// The flushed barriers.
    pub closed spec fn spec_emitted(&self) -> Seq<EmittedBarrier> {
        self.emitted_barriers@
    }

    /// The pending barrier prototype.
    pub closed spec fn spec_pending(&self) -> PendingBarrier {
        self.pending_barrier
    }

    /// The index of the first unflushed command.
    pub closed spec fn spec_first_unflushed(&self) -> usize {
        self.first_unflushed
    }

    /// The tracked buffer entries.
    pub closed spec fn buf_entries(&self) -> Seq<(u64, RangeMap<BufferRangeState>)> {
        self.buffers2@
    }

    /// The tracked image entries.
    pub closed spec fn img_entries(&self) -> Seq<(u64, RangeMap<ImageRangeState>)> {
        self.images2@
    }

    /// The buffer enumeration.
    pub closed spec fn spec_buffers(&self) -> Seq<(u64, DeviceRange, PipelineMemoryAccess)> {
        self.buffers@
    }

    /// The image enumeration.
    pub closed spec fn spec_images(&self) -> Seq<
        (u64, DeviceRange, PipelineMemoryAccess, ImageLayout, ImageLayout),
    > {
        self.images@
    }

    /// The declared buffer accesses.
    pub closed spec fn spec_buffer_uses(&self) -> Seq<BufferUse> {
        self.buffer_uses@
    }

    /// The declared image accesses.
    pub closed spec fn spec_image_uses(&self) -> Seq<ImageUse> {
        self.image_uses@
    }

    /// The binding state.
    pub closed spec fn spec_state(&self) -> CommandBufferState {
        self.state
    }

    /// The recorded error, if a malformed declaration was seen.
    pub closed spec fn spec_error(&self) -> Option<SyncCommandBufferBuilderError> {
        self.error
    }

    /// The native handle.
    pub closed spec fn spec_inner(&self) -> u64 {
        self.inner
    }

    /// True if `buffer` has a tracking entry.
    pub open spec fn spec_has_buffer(&self, buffer: u64) -> bool {
        exists|i: int| 0 <= i < self.buf_entries().len() && (#[trigger] self.buf_entries()[i]).0 == buffer
    }

    /// Index of `buffer`'s tracking entry.
    pub open spec fn buf_idx(&self, buffer: u64) -> int {
        choose|i: int| 0 <= i < self.buf_entries().len() && (#[trigger] self.buf_entries()[i]).0 == buffer
    }

    /// True if `image` has a tracking entry.
    pub open spec fn spec_has_image(&self, image: u64) -> bool {
        exists|i: int| 0 <= i < self.img_entries().len() && (#[trigger] self.img_entries()[i]).0 == image
    }

    /// Index of `image`'s tracking entry.
    pub open spec fn img_idx(&self, image: u64) -> int {
        choose|i: int| 0 <= i < self.img_entries().len() && (#[trigger] self.img_entries()[i]).0 == image
    }

    /// The tracked state of point `k` of `buffer`, if any.
    pub open spec fn buf_tracked(&self, buffer: u64, k: int) -> Option<BufferRangeState> {
        if self.spec_has_buffer(buffer) {
            self.buf_entries()[self.buf_idx(buffer)].1.at(k)
        } else {
            None
        }
    }

    /// The tracked state of point `k` of `image`, if any.
    pub open spec fn img_tracked(&self, image: u64, k: int) -> Option<ImageRangeState> {
        if self.spec_has_image(image) {
            self.img_entries()[self.img_idx(image)].1.at(k)
        } else {
            None
        }
    }

    /// Every tracking entry holds at least one range: a handle has an entry
    /// exactly when some point of it is tracked.
    pub open spec fn tracked_nonempty(&self) -> bool {
        &&& forall|i: int|
            0 <= i < self.buf_entries().len() ==> (#[trigger] self.buf_entries()[
            i]).1.entries().len() > 0
        &&& forall|i: int|
            0 <= i < self.img_entries().len() ==> (#[trigger] self.img_entries()[
            i]).1.entries().len() > 0
    }

    /// Builder invariant: distinct handles, well-formed and non-empty maps,
    /// diagnostics that point at real commands, a well-formed prototype that
    /// only covers ranges whose last access is not yet flushed, and an
    /// enumeration that accumulates exactly the declared uses.
    pub open spec fn wf(&self) -> bool {
        &&& self.wf_core()
        &&& self.tracked_nonempty()
    }

    /// The invariant except map non-emptiness (which a recording operation
    /// restores only once the declared range has been applied).
    pub open spec fn wf_core(&self) -> bool {
        &&& forall|i: int, j: int|
            0 <= i < j < self.buf_entries().len() ==> (#[trigger] self.buf_entries()[i]).0 != (
            #[trigger] self.buf_entries()[j]).0
        &&& forall|i: int|
            0 <= i < self.buf_entries().len() ==> (#[trigger] self.buf_entries()[i]).1.wf()
        &&& forall|i: int, j: int|
            0 <= i < j < self.img_entries().len() ==> (#[trigger] self.img_entries()[i]).0 != (
            #[trigger] self.img_entries()[j]).0
        &&& forall|i: int|
            0 <= i < self.img_entries().len() ==> (#[trigger] self.img_entries()[i]).1.wf()
        &&& forall|i: int, j: int|
            #![trigger self.buf_entries()[i].1.entries()[j]]
            0 <= i < self.buf_entries().len() && 0 <= j < self.buf_entries()[i].1.entries().len()
                ==> self.buf_entries()[i].1.entries()[j].value.first_use.command_index
                < self.spec_commands().len() && self.buf_entries()[
                i].1.entries()[j].value.last_command < self.spec_commands().len()
        &&& forall|i: int, j: int|
            #![trigger self.img_entries()[i].1.entries()[j]]
            0 <= i < self.img_entries().len() && 0 <= j < self.img_entries()[i].1.entries().len()
                ==> self.img_entries()[i].1.entries()[j].value.first_use.command_index
                < self.spec_commands().len() && self.img_entries()[
                i].1.entries()[j].value.last_command < self.spec_commands().len()
        &&& self.spec_first_unflushed() <= self.spec_commands().len()
        &&& self.spec_pending().wf()
        &&& forall|b: u64, k: int|
            (#[trigger] self.spec_pending().buf_at(b, k)) is Some ==> self.buf_tracked(b, k)
                is Some && self.buf_tracked(b, k)->0.last_command >= self.spec_first_unflushed()
        &&& forall|b: u64, k: int|
            (#[trigger] self.spec_pending().img_at(b, k)) is Some ==> self.img_tracked(b, k)
                is Some && self.img_tracked(b, k)->0.last_command >= self.spec_first_unflushed()
        &&& buf_enumeration_ok(self.spec_buffers(), self.spec_buffer_uses())
        &&& img_enumeration_ok(self.spec_images(), self.spec_image_uses())
    }

    /// When the tracked handles are distinct, the entry of a handle is
    /// unique.
    pub proof fn lemma_buf_lookup(&self, i: int)
        requires
            forall|i2: int, j2: int|
                0 <= i2 < j2 < self.buf_entries().len() ==> (#[trigger] self.buf_entries()[
                i2]).0 != (#[trigger] self.buf_entries()[j2]).0,
            0 <= i < self.buf_entries().len(),
        ensures
            self.spec_has_buffer(self.buf_entries()[i].0),
            self.buf_idx(self.buf_entries()[i].0) == i,
    {
        let id = self.buf_entries()[i].0;
        assert(self.spec_has_buffer(id));
        let j = self.buf_idx(id);
        if i < j {
            assert(self.buf_entries()[i].0 != self.buf_entries()[j].0);
        } else if j < i {
            assert(self.buf_entries()[j].0 != self.buf_entries()[i].0);
        }
    }

    /// When the tracked handles are distinct, the entry of a handle is
    /// unique.
    pub proof fn lemma_img_lookup(&self, i: int)
        requires
            forall|i2: int, j2: int|
                0 <= i2 < j2 < self.img_entries().len() ==> (#[trigger] self.img_entries()[
                i2]).0 != (#[trigger] self.img_entries()[j2]).0,
            0 <= i < self.img_entries().len(),
        ensures
            self.spec_has_image(self.img_entries()[i].0),
            self.img_idx(self.img_entries()[i].0) == i,
    {
        let id = self.img_entries()[i].0;
        assert(self.spec_has_image(id));
        let j = self.img_idx(id);
        if i < j {
            assert(self.img_entries()[i].0 != self.img_entries()[j].0);
        } else if j < i {
            assert(self.img_entries()[j].0 != self.img_entries()[i].0);
        }
    }

    /// A fresh builder recording into the native command buffer `inner`: no
    /// commands, no tracked state, nothing pending.
    pub fn new(inner: u64) -> (r: Self)
        ensures
            r.wf(),
            r.spec_inner() == inner,
            r.spec_commands().len() == 0,
            r.spec_barriers().len() == 0,
            r.spec_emitted().len() == 0,
            r.spec_first_unflushed() == 0,
            r.spec_pending().spec_is_empty(),
            r.buf_entries().len() == 0,
            r.img_entries().len() == 0,
            forall|b: u64, k: int| r.buf_tracked(b, k) is None,
            forall|b: u64, k: int| r.img_tracked(b, k) is None,
            r.spec_buffers().len() == 0,
            r.spec_images().len() == 0,
            r.spec_buffer_uses().len() == 0,
            r.spec_image_uses().len() == 0,
            r.spec_error() is None,
            forall|b: int| r.spec_state().spec_vertex_buffer(b) is None,
            forall|p: PipelineBindPoint, n: int| r.spec_state().spec_descriptor_set(p, n) is None,
            forall|p: PipelineBindPoint| r.spec_state().spec_bound_layouts(p) is None,
    {
        let r = SyncCommandBufferBuilder {
            inner,
            commands: Vec::new(),
            barriers: Vec::new(),
            first_unflushed: 0,
            pending_barrier: PendingBarrier::new(),
            emitted_barriers: Vec::new(),
            buffers2: Vec::new(),
            images2: Vec::new(),
            buffers: Vec::new(),
            images: Vec::new(),
            buffer_uses: Vec::new(),
            image_uses: Vec::new(),
            state: CommandBufferState::new(),
            error: None,
        };
        proof {
            assert(forall|b: u64| !r.spec_has_buffer(b));
            assert(forall|b: u64| !r.spec_has_image(b));
        }
        r
    }

    /// The current binding state.
    pub fn state(&self) -> (r: &CommandBufferState)
        ensures
            r == self.spec_state(),
    {
        &self.state
    }

    /// Position of `buffer`'s enumeration entry, if any.
    fn find_enum_buffer(&self, buffer: u64) -> (r: Option<usize>)
        ensures
            match r {
                Some(i) => i < self.spec_buffers().len() && self.spec_buffers()[i as int].0
                    == buffer,
                None => forall|j: int|
                    0 <= j < self.spec_buffers().len() ==> (#[trigger] self.spec_buffers()[j]).0
                        != buffer,
            },
    {
        let mut i: usize = 0;
        while i < self.buffers.len()
            invariant
                i <= self.spec_buffers().len(),
                forall|j: int| 0 <= j < i ==> (#[trigger] self.spec_buffers()[j]).0 != buffer,
            decreases self.spec_buffers().len() - i,
        {
            if self.buffers[i].0 == buffer {
                return Some(i);
            }
            i = i + 1;
        }
        None
    }

    /// Position of `image`'s enumeration entry, if any.
    fn find_enum_image(&self, image: u64) -> (r: Option<usize>)
        ensures
            match r {
                Some(i) => i < self.spec_images().len() && self.spec_images()[i as int].0 == image,
                None => forall|j: int|
                    0 <= j < self.spec_images().len() ==> (#[trigger] self.spec_images()[j]).0
                        != image,
            },
    {
        let mut i: usize = 0;
        while i < self.images.len()
            invariant
                i <= self.spec_images().len(),
                forall|j: int| 0 <= j < i ==> (#[trigger] self.spec_images()[j]).0 != image,
            decreases self.spec_images().len() - i,
        {
            if self.images[i].0 == image {
                return Some(i);
            }
            i = i + 1;
        }
        None
    }

    /// Records one declared buffer use: appends it to the use history and
    /// folds it into the per-buffer enumeration entry (creating the entry on
    /// first use).
    fn note_buffer_use(&mut self, u: BufferUse)
        requires
            buf_enumeration_ok(old(self).spec_buffers(), old(self).spec_buffer_uses()),
        ensures
            final(self).spec_buffer_uses() == old(self).spec_buffer_uses().push(u),
            buf_enumeration_ok(final(self).spec_buffers(), final(self).spec_buffer_uses()),
            final(self).spec_commands() == old(self).spec_commands(),
            final(self).spec_barriers() == old(self).spec_barriers(),
            final(self).spec_emitted() == old(self).spec_emitted(),
            final(self).spec_first_unflushed() == old(self).spec_first_unflushed(),
            final(self).spec_pending() == old(self).spec_pending(),
            final(self).buf_entries() == old(self).buf_entries(),
            final(self).img_entries() == old(self).img_entries(),
            final(self).spec_images() == old(self).spec_images(),
            final(self).spec_image_uses() == old(self).spec_image_uses(),
            final(self).spec_state() == old(self).spec_state(),
            final(self).spec_error() == old(self).spec_error(),
            final(self).spec_inner() == old(self).spec_inner(),
    {
        let ghost uses0 = self.buffer_uses@;
        let ghost list0 = self.buffers@;
        let fr = self.find_enum_buffer(u.buffer);
        if let Some(fi) = fr {
            let (id, rg, mem) = self.buffers[fi];
            let hull = DeviceRange {
                start: if rg.start <= u.range.start {
                    rg.start
                } else {
                    u.range.start
                },
                end: if rg.end >= u.range.end {
                    rg.end
                } else {
                    u.range.end
                },
            };
            let newmem = PipelineMemoryAccess {
                stages: PipelineStages { bits: mem.stages.bits | u.memory.stages.bits },
                access: AccessFlags { bits: mem.access.bits | u.memory.access.bits },
                exclusive: mem.exclusive || u.memory.exclusive,
            };
            self.buffers.set(fi, (id, hull, newmem));
            self.buffer_uses.push(u);
            proof {
                let uses1 = self.buffer_uses@;
                let list1 = self.buffers@;
                assert(uses1 == uses0.push(u));
                assert(list1 == list0.update(fi as int, (id, hull, newmem)));
                assert(list0[fi as int] == (id, rg, mem));
                assert(id == u.buffer);
                assert(mem.stages.bits == acc_buf_stages(uses0, id));
                assert(rg == acc_buf_hull(uses0, id));
                assert(buf_used(uses0, id));
                lemma_acc_buf_push(uses0, u, id);
                assert forall|i: int| 0 <= i < list1.len() implies {
                    let (id2, range2, memory2) = #[trigger] list1[i];
                    buf_used(uses1, id2) && memory2.stages.bits == acc_buf_stages(uses1, id2)
                        && memory2.access.bits == acc_buf_access(uses1, id2) && memory2.exclusive
                        == acc_buf_exclusive(uses1, id2) && range2 == acc_buf_hull(uses1, id2)
                } by {
                    lemma_acc_buf_push(uses0, u, list1[i].0);
                    if i != fi {
                        assert(list1[i] == list0[i]);
                        assert(list1[i].0 != u.buffer);
                        assert(buf_used(uses1, list1[i].0));
                        assert(list1[i].2.stages.bits == acc_buf_stages(uses1, list1[i].0));
                        assert(list1[i].2.access.bits == acc_buf_access(uses1, list1[i].0));
                        assert(list1[i].2.exclusive == acc_buf_exclusive(uses1, list1[i].0));
                        assert(list1[i].1 == acc_buf_hull(uses1, list1[i].0));
                    } else {
                        assert(list1[i] == (id, hull, newmem));
                        assert(buf_used(uses1, id));
                        assert(newmem.stages.bits == acc_buf_stages(uses1, id));
                        assert(newmem.access.bits == acc_buf_access(uses1, id));
                        assert(newmem.exclusive == acc_buf_exclusive(uses1, id));
                        assert(hull == acc_buf_hull(uses1, id));
                    }
                }
                assert forall|id2: u64| buf_used(uses1, id2) implies exists|i: int|
                    0 <= i < list1.len() && (#[trigger] list1[i]).0 == id2 by {
                    lemma_acc_buf_push(uses0, u, id2);
                    if buf_used(uses0, id2) {
                        let i = choose|i: int| 0 <= i < list0.len() && (#[trigger] list0[i]).0 == id2;
                        assert(list1[i].0 == id2);
                    } else {
                        assert(id2 == u.buffer);
                        assert(list1[fi as int].0 == id2);
                    }
                }
                assert(forall|i: int, j: int|
                    0 <= i < j < list1.len() ==> (#[trigger] list1[i]).0 != (
                    #[trigger] list1[j]).0);
                assert(buf_enumeration_ok(list1, uses1));
            }
        } else {
            self.buffers.push((u.buffer, u.range, u.memory));
            self.buffer_uses.push(u);
            proof {
                let uses1 = self.buffer_uses@;
                let list1 = self.buffers@;
                let n = list0.len();
                assert(uses1 == uses0.push(u));
                assert(list1 == list0.push((u.buffer, u.range, u.memory)));
                assert(!buf_used(uses0, u.buffer)) by {
                    if buf_used(uses0, u.buffer) {
                        let i = choose|i: int|
                            0 <= i < list0.len() && (#[trigger] list0[i]).0 == u.buffer;
                    }
                }
                lemma_acc_buf_unused(uses0, u.buffer);
                lemma_acc_buf_push(uses0, u, u.buffer);
                lemma_or_zero(u.memory.stages.bits);
                lemma_or_zero(u.memory.access.bits);
                assert forall|i: int| 0 <= i < list1.len() implies {
                    let (id2, range2, memory2) = #[trigger] list1[i];
                    buf_used(uses1, id2) && memory2.stages.bits == acc_buf_stages(uses1, id2)
                        && memory2.access.bits == acc_buf_access(uses1, id2) && memory2.exclusive
                        == acc_buf_exclusive(uses1, id2) && range2 == acc_buf_hull(uses1, id2)
                } by {
                    lemma_acc_buf_push(uses0, u, list1[i].0);
                    if i < n {
                        assert(list1[i] == list0[i]);
                        assert(list1[i].0 != u.buffer);
                    } else {
                        assert(list1[i] == (u.buffer, u.range, u.memory));
                    }
                }
                assert forall|id2: u64| buf_used(uses1, id2) implies exists|i: int|
                    0 <= i < list1.len() && (#[trigger] list1[i]).0 == id2 by {
                    lemma_acc_buf_push(uses0, u, id2);
                    if buf_used(uses0, id2) {
                        let i = choose|i: int| 0 <= i < list0.len() && (#[trigger] list0[i]).0 == id2;
                        assert(list1[i].0 == id2);
                    } else {
                        assert(list1[n as int].0 == id2);
                    }
                }
                assert forall|i: int, j: int| 0 <= i < j < list1.len() implies (
                #[trigger] list1[i]).0 != (#[trigger] list1[j]).0 by {
                    if j == n {
                        assert(list1[i].0 != u.buffer);
                    }
                }
                assert(buf_enumeration_ok(list1, uses1));
            }
        }
    }

    /// Records one declared image use, mirroring
    /// [`SyncCommandBufferBuilder::note_buffer_use`].
    fn note_image_use(&mut self, u: ImageUse)
        requires
            img_enumeration_ok(old(self).spec_images(), old(self).spec_image_uses()),
        ensures
            final(self).spec_image_uses() == old(self).spec_image_uses().push(u),
            img_enumeration_ok(final(self).spec_images(), final(self).spec_image_uses()),
            final(self).spec_commands() == old(self).spec_commands(),
            final(self).spec_barriers() == old(self).spec_barriers(),
            final(self).spec_emitted() == old(self).spec_emitted(),
            final(self).spec_first_unflushed() == old(self).spec_first_unflushed(),
            final(self).spec_pending() == old(self).spec_pending(),
            final(self).buf_entries() == old(self).buf_entries(),
            final(self).img_entries() == old(self).img_entries(),
            final(self).spec_buffers() == old(self).spec_buffers(),
            final(self).spec_buffer_uses() == old(self).spec_buffer_uses(),
            final(self).spec_state() == old(self).spec_state(),
            final(self).spec_error() == old(self).spec_error(),
            final(self).spec_inner() == old(self).spec_inner(),
    {
        let ghost uses0 = self.image_uses@;
        let fr = self.find_enum_image(u.image);
        let mut fi: usize = 0;
        let found: bool = match fr {
            Some(i) => {
                fi = i;
                true
            },
            None => false,
        };
        if found {
            let (id, rg, mem, sl, el) = self.images[fi];
            let hull = DeviceRange {
                start: if rg.start <= u.range.start {
                    rg.start
                } else {
                    u.range.start
                },
                end: if rg.end >= u.range.end {
                    rg.end
                } else {
                    u.range.end
                },
            };
            let newmem = PipelineMemoryAccess {
                stages: PipelineStages { bits: mem.stages.bits | u.memory.stages.bits },
                access: AccessFlags { bits: mem.access.bits | u.memory.access.bits },
                exclusive: mem.exclusive || u.memory.exclusive,
            };
            self.images.set(fi, (id, hull, newmem, sl, u.end_layout));
        } else {
            self.images.push((u.image, u.range, u.memory, u.start_layout, u.end_layout));
        }
        let ghost list0 = old(self).spec_images();
        let ghost list1 = self.images@;
        self.image_uses.push(u);
        proof {
            let uses1 = self.image_uses@;
            assert(uses1 == uses0.push(u));
            if found {
                lemma_acc_img_push(uses0, u, u.image);
                assert(img_enumeration_ok(list1, uses1)) by {
                    assert forall|i: int| 0 <= i < list1.len() implies {
                        let (id, range, memory, start_layout, end_layout) = #[trigger] list1[i];
                        img_used(uses1, id) && memory.stages.bits == acc_img_stages(uses1, id)
                            && memory.access.bits == acc_img_access(uses1, id) && memory.exclusive
                            == acc_img_exclusive(uses1, id) && range == acc_img_hull(uses1, id)
                            && start_layout == acc_img_first_layout(uses1, id) && end_layout
                            == acc_img_last_layout(uses1, id)
                    } by {
                        lemma_acc_img_push(uses0, u, list1[i].0);
                        if i != fi {
                            assert(list1[i] == list0[i]);
                            assert(list0[fi as int].0 == u.image);
                            assert(list1[i].0 != u.image);
                        }
                    }
                    assert forall|id: u64| img_used(uses1, id) implies exists|i: int|
                        0 <= i < list1.len() && (#[trigger] list1[i]).0 == id by {
                        lemma_acc_img_push(uses0, u, id);
                        if img_used(uses0, id) {
                            let i = choose|i: int|
                                0 <= i < list0.len() && (#[trigger] list0[i]).0 == id;
                            assert(list1[i].0 == id);
                        } else {
                            assert(id == u.image);
                            assert(list1[fi as int].0 == id);
                        }
                    }
                }
            } else {
                assert(!img_used(uses0, u.image)) by {
                    if img_used(uses0, u.image) {
                        let i = choose|i: int|
                            0 <= i < list0.len() && (#[trigger] list0[i]).0 == u.image;
                    }
                }
                lemma_acc_img_unused(uses0, u.image);
                lemma_acc_img_push(uses0, u, u.image);
                lemma_or_zero(u.memory.stages.bits);
                lemma_or_zero(u.memory.access.bits);
                assert(img_enumeration_ok(list1, uses1)) by {
                    let n = list0.len();
                    assert(list1[n as int] == (u.image, u.range, u.memory, u.start_layout,
                    u.end_layout));
                    assert forall|i: int| 0 <= i < list1.len() implies {
                        let (id, range, memory, start_layout, end_layout) = #[trigger] list1[i];
                        img_used(uses1, id) && memory.stages.bits == acc_img_stages(uses1, id)
                            && memory.access.bits == acc_img_access(uses1, id) && memory.exclusive
                            == acc_img_exclusive(uses1, id) && range == acc_img_hull(uses1, id)
                            && start_layout == acc_img_first_layout(uses1, id) && end_layout
                            == acc_img_last_layout(uses1, id)
                    } by {
                        lemma_acc_img_push(uses0, u, list1[i].0);
                        if i < n {
                            assert(list1[i] == list0[i]);
                            assert(list1[i].0 != u.image);
                        }
                    }
                    assert forall|id: u64| img_used(uses1, id) implies exists|i: int|
                        0 <= i < list1.len() && (#[trigger] list1[i]).0 == id by {
                        lemma_acc_img_push(uses0, u, id);
                        if img_used(uses0, id) {
                            let i = choose|i: int|
                                0 <= i < list0.len() && (#[trigger] list0[i]).0 == id;
                            assert(list1[i].0 == id);
                        } else {
                            assert(list1[n as int].0 == id);
                        }
                    }
                    assert forall|i: int, j: int| 0 <= i < j < list1.len() implies (
                    #[trigger] list1[i]).0 != (#[trigger] list1[j]).0 by {
                        if j == n {
                            assert(list1[i].0 != u.image);
                        }
                    }
                }
            }
        }
    }

    /// Executable twin of [`next_buf_state`].
    fn next_buf_state_exec(
        prev: Option<BufferRangeState>,
        idx: usize,
        name: ParamName,
        memory: PipelineMemoryAccess,
    ) -> (r: BufferRangeState)
        ensures
            r == next_buf_state(prev, idx, name, memory),
    {
        match prev {
            None => BufferRangeState {
                first_use: ResourceUse { command_index: idx, name },
                stages: memory.stages,
                access: memory.access,
                exclusive: memory.exclusive,
                last_command: idx,
            },
            Some(s) => {
                if s.last_command == idx {
                    BufferRangeState {
                        first_use: s.first_use,
                        stages: PipelineStages { bits: s.stages.bits | memory.stages.bits },
                        access: AccessFlags { bits: s.access.bits | memory.access.bits },
                        exclusive: s.exclusive || memory.exclusive,
                        last_command: idx,
                    }
                } else if !s.exclusive && !memory.exclusive {
                    BufferRangeState {
                        first_use: s.first_use,
                        stages: PipelineStages { bits: s.stages.bits | memory.stages.bits },
                        access: AccessFlags { bits: s.access.bits | memory.access.bits },
                        exclusive: false,
                        last_command: idx,
                    }
                } else {
                    BufferRangeState {
                        first_use: s.first_use,
                        stages: memory.stages,
                        access: memory.access,
                        exclusive: memory.exclusive,
                        last_command: idx,
                    }
                }
            },
        }
    }

    /// Executable twin of [`next_img_state`].
    fn next_img_state_exec(
        prev: Option<ImageRangeState>,
        idx: usize,
        name: ParamName,
        memory: PipelineMemoryAccess,
        start_layout: ImageLayout,
        end_layout: ImageLayout,
    ) -> (r: ImageRangeState)
        ensures
            r == next_img_state(prev, idx, name, memory, start_layout, end_layout),
    {
        match prev {
            None => ImageRangeState {
                first_use: ResourceUse { command_index: idx, name },
                stages: memory.stages,
                access: memory.access,
                exclusive: memory.exclusive,
                last_command: idx,
                initial_layout: start_layout,
                final_layout: end_layout,
            },
            Some(s) => {
                if s.last_command == idx {
                    ImageRangeState {
                        first_use: s.first_use,
                        stages: PipelineStages { bits: s.stages.bits | memory.stages.bits },
                        access: AccessFlags { bits: s.access.bits | memory.access.bits },
                        exclusive: s.exclusive || memory.exclusive,
                        last_command: idx,
                        initial_layout: s.initial_layout,
                        final_layout: end_layout,
                    }
                } else if !s.exclusive && !memory.exclusive && s.final_layout == start_layout {
                    ImageRangeState {
                        first_use: s.first_use,
                        stages: PipelineStages { bits: s.stages.bits | memory.stages.bits },
                        access: AccessFlags { bits: s.access.bits | memory.access.bits },
                        exclusive: false,
                        last_command: idx,
                        initial_layout: s.initial_layout,
                        final_layout: end_layout,
                    }
                } else {
                    ImageRangeState {
                        first_use: s.first_use,
                        stages: memory.stages,
                        access: memory.access,
                        exclusive: memory.exclusive,
                        last_command: idx,
                        initial_layout: s.initial_layout,
                        final_layout: end_layout,
                    }
                }
            },
        }
    }

    /// Position of `buffer`'s tracking entry, if any.
    fn find_tracked_buffer(&self, buffer: u64) -> (r: Option<usize>)
        ensures
            match r {
                Some(i) => i < self.buf_entries().len() && self.buf_entries()[i as int].0 == buffer,
                None => !self.spec_has_buffer(buffer),
            },
    {
        let mut i: usize = 0;
        while i < self.buffers2.len()
            invariant
                i <= self.buf_entries().len(),
                forall|j: int| 0 <= j < i ==> (#[trigger] self.buf_entries()[j]).0 != buffer,
            decreases self.buf_entries().len() - i,
        {
            if self.buffers2[i].0 == buffer {
                return Some(i);
            }
            i = i + 1;
        }
        None
    }

    /// Position of `image`'s tracking entry, if any.
    fn find_tracked_image(&self, image: u64) -> (r: Option<usize>)
        ensures
            match r {
                Some(i) => i < self.img_entries().len() && self.img_entries()[i as int].0 == image,
                None => !self.spec_has_image(image),
            },
    {
        let mut i: usize = 0;
        while i < self.images2.len()
            invariant
                i <= self.img_entries().len(),
                forall|j: int| 0 <= j < i ==> (#[trigger] self.img_entries()[j]).0 != image,
            decreases self.img_entries().len() - i,
        {
            if self.images2[i].0 == image {
                return Some(i);
            }
            i = i + 1;
        }
        None
    }

    /// True if some point of `range` holds a hazard against a command of the
    /// current (unflushed) batch, so that the batch must be flushed before
    /// command `idx`'s barrier can be placed.
    fn scan_buf_hazard(
        &self,
        idx: usize,
        buffer: u64,
        range: DeviceRange,
        memory: PipelineMemoryAccess,
    ) -> (hz: bool)
        requires
            self.wf(),
            range.wf(),
        ensures
            hz == exists|k: int|
                range.spec_contains(k) && buf_hazard_unflushed(
                    #[trigger] self.buf_tracked(buffer, k),
                    idx,
                    memory,
                    self.spec_first_unflushed(),
                ),
    {
        let bi = match self.find_tracked_buffer(buffer) {
            Some(i) => i,
            None => {
                return false;
            },
        };
        proof {
            self.lemma_buf_lookup(bi as int);
        }
        let ghost rm = self.buf_entries()[bi as int].1;
        let n = self.buffers2[bi].1.num_entries();
        let mut i: usize = 0;
        while i < n
            invariant
                self.wf(),
                range.wf(),
                bi < self.buf_entries().len(),
                self.buf_entries()[bi as int].0 == buffer,
                self.buf_idx(buffer) == bi,
                self.spec_has_buffer(buffer),
                rm == self.buf_entries()[bi as int].1,
                n == rm.entries().len(),
                i <= n,
                forall|k: int|
                    range.spec_contains(k) && rm.covers(k) && rm.index_of(k) < i
                        ==> !buf_hazard_unflushed(
                        #[trigger] self.buf_tracked(buffer, k),
                        idx,
                        memory,
                        self.spec_first_unflushed(),
                    ),
            decreases n - i,
        {
            let e = self.buffers2[bi].1.entry(i);
            if e.start < range.end && range.start < e.end {
                let v = e.value;
                if v.last_command != idx && (v.exclusive || memory.exclusive)
                    && v.last_command >= self.first_unflushed {
                    proof {
                        let k = if e.start >= range.start {
                            e.start as int
                        } else {
                            range.start as int
                        };
                        rm.lemma_at_entry(i as int, k);
                        assert(range.spec_contains(k));
                        assert(self.buf_tracked(buffer, k) == Some(v));
                    }
                    return true;
                }
            }
            proof {
                assert forall|k: int|
                    range.spec_contains(k) && rm.covers(k) && rm.index_of(k) < i
                        + 1 implies !buf_hazard_unflushed(
                    #[trigger] self.buf_tracked(buffer, k),
                    idx,
                    memory,
                    self.spec_first_unflushed(),
                ) by {
                    if rm.index_of(k) == i {
                        rm.lemma_at_entry(i as int, k);
                    }
                }
            }
            i = i + 1;
        }
        proof {
            assert forall|k: int|
                range.spec_contains(k) implies !buf_hazard_unflushed(
                #[trigger] self.buf_tracked(buffer, k),
                idx,
                memory,
                self.spec_first_unflushed(),
            ) by {
                if rm.covers(k) {
                    rm.lemma_at_entry(rm.index_of(k), k);
                } else {
                    assert(self.buf_tracked(buffer, k) is None);
                }
            }
        }
        false
    }

    /// True if some point of `range` holds an image hazard against a command
    /// of the current (unflushed) batch.
    fn scan_img_hazard(
        &self,
        idx: usize,
        image: u64,
        range: DeviceRange,
        memory: PipelineMemoryAccess,
        start_layout: ImageLayout,
    ) -> (hz: bool)
        requires
            self.wf(),
            range.wf(),
        ensures
            hz == exists|k: int|
                range.spec_contains(k) && img_hazard_unflushed(
                    #[trigger] self.img_tracked(image, k),
                    idx,
                    memory,
                    start_layout,
                    self.spec_first_unflushed(),
                ),
    {
        let bi = match self.find_tracked_image(image) {
            Some(i) => i,
            None => {
                return false;
            },
        };
        proof {
            self.lemma_img_lookup(bi as int);
        }
        let ghost rm = self.img_entries()[bi as int].1;
        let n = self.images2[bi].1.num_entries();
        let mut i: usize = 0;
        while i < n
            invariant
                self.wf(),
                range.wf(),
                bi < self.img_entries().len(),
                self.img_entries()[bi as int].0 == image,
                self.img_idx(image) == bi,
                self.spec_has_image(image),
                rm == self.img_entries()[bi as int].1,
                n == rm.entries().len(),
                i <= n,
                forall|k: int|
                    range.spec_contains(k) && rm.covers(k) && rm.index_of(k) < i
                        ==> !img_hazard_unflushed(
                        #[trigger] self.img_tracked(image, k),
                        idx,
                        memory,
                        start_layout,
                        self.spec_first_unflushed(),
                    ),
            decreases n - i,
        {
            let e = self.images2[bi].1.entry(i);
            if e.start < range.end && range.start < e.end {
                let v = e.value;
                if v.last_command != idx && (v.exclusive || memory.exclusive || v.final_layout
                    != start_layout) && v.last_command >= self.first_unflushed {
                    proof {
                        let k = if e.start >= range.start {
                            e.start as int
                        } else {
                            range.start as int
                        };
                        rm.lemma_at_entry(i as int, k);
                        assert(range.spec_contains(k));
                        assert(self.img_tracked(image, k) == Some(v));
                    }
                    return true;
                }
            }
            proof {
                assert forall|k: int|
                    range.spec_contains(k) && rm.covers(k) && rm.index_of(k) < i
                        + 1 implies !img_hazard_unflushed(
                    #[trigger] self.img_tracked(image, k),
                    idx,
                    memory,
                    start_layout,
                    self.spec_first_unflushed(),
                ) by {
                    if rm.index_of(k) == i {
                        rm.lemma_at_entry(i as int, k);
                    }
                }
            }
            i = i + 1;
        }
        proof {
            assert forall|k: int|
                range.spec_contains(k) implies !img_hazard_unflushed(
                #[trigger] self.img_tracked(image, k),
                idx,
                memory,
                start_layout,
                self.spec_first_unflushed(),
            ) by {
                if rm.covers(k) {
                    rm.lemma_at_entry(rm.index_of(k), k);
                } else {
                    assert(self.img_tracked(image, k) is None);
                }
            }
        }
        false
    }

    /// Applies one declared buffer access to the tracked state: updates every
    /// point of `range` by [`next_buf_state`] and merges one barrier per
    /// conflicting stored range into the pending prototype.  The caller has
    /// already flushed if any conflict lay in the unflushed batch.
    #[verifier::rlimit(100)]
    #[verifier::spinoff_prover]
    fn apply_buf_access(
        &mut self,
        idx: usize,
        name: ParamName,
        buffer: u64,
        range: DeviceRange,
        memory: PipelineMemoryAccess,
    )
        requires
            old(self).wf(),
            range.wf(),
            idx < old(self).spec_commands().len(),
            old(self).spec_first_unflushed() <= idx,
            forall|k: int|
                range.spec_contains(k) ==> !buf_hazard_unflushed(
                    #[trigger] old(self).buf_tracked(buffer, k),
                    idx,
                    memory,
                    old(self).spec_first_unflushed(),
                ),
        ensures
            final(self).wf(),
            forall|k: int|
                range.spec_contains(k) ==> final(self).buf_tracked(buffer, k) == Some(
                    next_buf_state(old(self).buf_tracked(buffer, k), idx, name, memory),
                ),
            forall|b: u64, k: int|
                !(b == buffer && range.spec_contains(k)) ==> final(self).buf_tracked(b, k) == old(self).buf_tracked(b, k),
            forall|b: u64, k: int| final(self).img_tracked(b, k) == old(self).img_tracked(b, k),
            forall|k: int|
                #![trigger final(self).spec_pending().buf_at(buffer, k)]
                range.spec_contains(k) && buf_needs_barrier(
                    old(self).buf_tracked(buffer, k),
                    idx,
                    memory,
                ) ==> buf_barrier_records(
                    final(self).spec_pending().buf_at(buffer, k),
                    old(self).buf_tracked(buffer, k)->0,
                    memory,
                ),
            forall|b: u64, k: int|
                !(b == buffer && range.spec_contains(k) && buf_needs_barrier(
                    old(self).buf_tracked(b, k),
                    idx,
                    memory,
                )) ==> final(self).spec_pending().buf_at(b, k) == old(self).spec_pending().buf_at(
                    b,
                    k,
                ),
            forall|b: u64, k: int|
                final(self).spec_pending().img_at(b, k) == old(self).spec_pending().img_at(b, k),
            (forall|k: int|
                range.spec_contains(k) ==> !buf_needs_barrier(
                    #[trigger] old(self).buf_tracked(buffer, k),
                    idx,
                    memory,
                )) ==> final(self).spec_pending() == old(self).spec_pending(),
            final(self).spec_commands() == old(self).spec_commands(),
            final(self).spec_barriers() == old(self).spec_barriers(),
            final(self).spec_emitted() == old(self).spec_emitted(),
            final(self).spec_first_unflushed() == old(self).spec_first_unflushed(),
            final(self).spec_buffers() == old(self).spec_buffers(),
            final(self).spec_images() == old(self).spec_images(),
            final(self).spec_buffer_uses() == old(self).spec_buffer_uses(),
            final(self).spec_image_uses() == old(self).spec_image_uses(),
            final(self).spec_state() == old(self).spec_state(),
            final(self).spec_error() == old(self).spec_error(),
            final(self).spec_inner() == old(self).spec_inner(),
    {
        let idxe: usize = match self.find_tracked_buffer(buffer) {
            Some(i) => i,
            None => {
                let i = self.buffers2.len();
                self.buffers2.push((buffer, RangeMap::new()));
                proof {
                    assert(forall|j: int|
                        0 <= j < i ==> #[trigger] self.buf_entries()[j]
                            == old(self).buf_entries()[j]);
                    assert(self.buf_entries()[i as int].0 == buffer);
                    assert(self.img_entries() == old(self).img_entries());
                    assert forall|i2: int, j2: int|
                        #![trigger self.buf_entries()[i2].1.entries()[j2]]
                        0 <= i2 < self.buf_entries().len() && 0 <= j2 < self.buf_entries()[
                            i2].1.entries().len() implies self.buf_entries()[
                    i2].1.entries()[j2].value.first_use.command_index < self.spec_commands().len()
                        && self.buf_entries()[i2].1.entries()[j2].value.last_command
                        < self.spec_commands().len() by {
                        assert(i2 != i);
                        assert(self.buf_entries()[i2] == old(self).buf_entries()[i2]);
                    }
                    assert forall|b: u64, k: int| self.buf_tracked(b, k) == old(self).buf_tracked(
                        b,
                        k,
                    ) by {
                        if b == buffer {
                            self.lemma_buf_lookup(i as int);
                        } else {
                            if old(self).spec_has_buffer(b) {
                                let j = old(self).buf_idx(b);
                                old(self).lemma_buf_lookup(j);
                                self.lemma_buf_lookup(j);
                            } else {
                                assert(!self.spec_has_buffer(b));
                            }
                        }
                    }
                    assert forall|b: u64, k: int| self.img_tracked(b, k) == old(self).img_tracked(
                        b,
                        k,
                    ) by {}
                    assert(self.wf_core());
                    assert(forall|i2: int|
                        0 <= i2 < self.buf_entries().len() && i2 != i ==> (
                        #[trigger] self.buf_entries()[i2]).1.entries().len() > 0);
                    assert(forall|i2: int|
                        0 <= i2 < self.img_entries().len() ==> (#[trigger] self.img_entries()[
                        i2]).1.entries().len() > 0);
                }
                i
            },
        };
        let ghost mid = *self;
        proof {
            mid.lemma_buf_lookup(idxe as int);
        }
        let (id, mut rm) = self.buffers2.remove(idxe);
        let ghost removed = self.buffers2@;
        let ghost rm_orig = rm;
        let ghost pending0 = self.pending_barrier;
        let ghost fu0 = self.first_unflushed;
        proof {
            // The tracked state of `buffer` is exactly this map.
            assert(forall|k: int|
                mid.buf_tracked(buffer, k) == #[trigger] rm_orig.at(k));
            // Pending coverage facts, localized to this map.
            assert(forall|k: int|
                (#[trigger] pending0.buf_at(buffer, k)) is Some ==> rm_orig.at(k) is Some
                    && rm_orig.at(k)->0.last_command >= fu0);
            // Pointwise state bounds from the entry-level invariant.
            assert forall|k: int| (#[trigger] rm_orig.at(k)) is Some implies rm_orig.at(
                k,
            )->0.first_use.command_index < mid.spec_commands().len() && rm_orig.at(
                k,
            )->0.last_command < mid.spec_commands().len() by {
                if rm_orig.covers(k) {
                    let j = rm_orig.index_of(k);
                    assert(rm_orig.entries()[j].value.first_use.command_index
                        < mid.spec_commands().len() && rm_orig.entries()[j].value.last_command
                        < mid.spec_commands().len());
                }
            }
        }
        rm.split_at(range.start);
        rm.split_at(range.end);
        let ghost rm1 = rm;
        proof {
            assert(forall|k: int| mid.buf_tracked(buffer, k) == #[trigger] old(self).buf_tracked(
                buffer,
                k,
            ));
            assert(forall|k: int| #[trigger] rm1.at(k) == rm_orig.at(k));
            assert(forall|k: int| #[trigger] rm1.at(k) == old(self).buf_tracked(buffer, k));
        }
        let mut gaps: Vec<(u64, u64)> = Vec::new();
        let mut cursor: u64 = range.start;
        let mut i: usize = rm.lower_bound(range.start);
        loop
            invariant_except_break
                i <= rm.entries().len(),
                rm.wf(),
                rm1.wf(),
                range.wf(),
                range.start <= cursor <= range.end,
                rm.entries().len() == rm1.entries().len(),
                forall|j: int|
                    0 <= j < rm.entries().len() ==> (#[trigger] rm.entries()[j]).start
                        == rm1.entries()[j].start && rm.entries()[j].end == rm1.entries()[j].end,
                forall|j: int|
                    0 <= j < rm1.entries().len() ==> !((#[trigger] rm1.entries()[j]).start
                        < range.start && range.start < rm1.entries()[j].end),
                forall|j: int|
                    0 <= j < rm1.entries().len() ==> !((#[trigger] rm1.entries()[j]).start
                        < range.end && range.end < rm1.entries()[j].end),
                forall|j: int| 0 <= j < i ==> (#[trigger] rm.entries()[j]).end <= cursor,
                forall|j: int|
                    i <= j < rm.entries().len() ==> (#[trigger] rm.entries()[j]).start >= cursor,
                forall|k: int|
                    range.start <= k < cursor && rm1.at(k) is Some ==> rm.at(k) == Some(
                        next_buf_state(rm1.at(k), idx, name, memory),
                    ),
                forall|k: int| !(range.start <= k < cursor) ==> rm.at(k) == rm1.at(k),
                forall|g: int|
                    0 <= g < gaps@.len() ==> range.start <= (#[trigger] gaps@[g]).0 < gaps@[g].1
                        <= range.end && gaps@[g].1 <= cursor,
                forall|g1: int, g2: int|
                    0 <= g1 < g2 < gaps@.len() ==> (#[trigger] gaps@[g1]).1 <= (#[trigger] gaps@[
                    g2]).0,
                forall|g: int, k: int|
                    #![trigger gaps@[g], rm1.at(k)]
                    0 <= g < gaps@.len() && gaps@[g].0 <= k < gaps@[g].1 ==> rm1.at(k) is None
                        && rm.at(k) is None,
                forall|k: int|
                    range.start <= k < cursor && rm1.at(k) is None ==> exists|g: int|
                        0 <= g < gaps@.len() && (#[trigger] gaps@[g]).0 <= k < gaps@[g].1,
                // hazards were already flushed
                forall|k: int|
                    range.spec_contains(k) ==> !buf_hazard_unflushed(
                        #[trigger] rm1.at(k),
                        idx,
                        memory,
                        fu0,
                    ),
                // pending coverage of the original map
                forall|k: int|
                    (#[trigger] pending0.buf_at(buffer, k)) is Some ==> rm1.at(k) is Some
                        && rm1.at(k)->0.last_command >= fu0,
                // pending evolution
                self.pending_barrier.wf(),
                forall|k: int|
                    #![trigger self.pending_barrier.buf_at(buffer, k)]
                    range.start <= k < cursor && rm1.at(k) is Some && buf_needs_barrier(
                        rm1.at(k),
                        idx,
                        memory,
                    ) ==> buf_barrier_records(
                        self.pending_barrier.buf_at(buffer, k),
                        rm1.at(k)->0,
                        memory,
                    ),
                forall|b: u64, k: int|
                    !(b == buffer && range.start <= k < cursor && rm1.at(k) is Some
                        && buf_needs_barrier(rm1.at(k), idx, memory)) ==> #[trigger] self.pending_barrier.buf_at(
                        b,
                        k,
                    ) == pending0.buf_at(b, k),
                forall|b: u64, k: int|
                    #[trigger] self.pending_barrier.img_at(b, k) == pending0.img_at(b, k),
                no_buf_conflicts(rm1, range, idx, memory) ==> self.pending_barrier == pending0,
                // frame on the rest of the builder
                self.buffers2@ == removed,
                self.img_entries() == mid.img_entries(),
                self.spec_commands() == mid.spec_commands(),
                self.spec_barriers() == mid.spec_barriers(),
                self.spec_emitted() == mid.spec_emitted(),
                self.spec_first_unflushed() == fu0,
                self.spec_buffers() == mid.spec_buffers(),
                self.spec_images() == mid.spec_images(),
                self.spec_buffer_uses() == mid.spec_buffer_uses(),
                self.spec_image_uses() == mid.spec_image_uses(),
                self.spec_state() == mid.spec_state(),
                self.spec_error() == mid.spec_error(),
                self.spec_inner() == mid.spec_inner(),
            ensures
                rm.wf(),
                rm1.wf(),
                range.start <= cursor <= range.end,
                forall|k: int|
                    range.start <= k < cursor && rm1.at(k) is Some ==> rm.at(k) == Some(
                        next_buf_state(rm1.at(k), idx, name, memory),
                    ),
                forall|k: int| !(range.start <= k < cursor) ==> rm.at(k) == rm1.at(k),
                forall|k: int| cursor <= k < range.end ==> rm1.at(k) is None,
                forall|g: int|
                    0 <= g < gaps@.len() ==> range.start <= (#[trigger] gaps@[g]).0 < gaps@[g].1
                        <= range.end && gaps@[g].1 <= cursor,
                forall|g1: int, g2: int|
                    0 <= g1 < g2 < gaps@.len() ==> (#[trigger] gaps@[g1]).1 <= (#[trigger] gaps@[
                    g2]).0,
                forall|g: int, k: int|
                    #![trigger gaps@[g], rm1.at(k)]
                    0 <= g < gaps@.len() && gaps@[g].0 <= k < gaps@[g].1 ==> rm1.at(k) is None
                        && rm.at(k) is None,
                forall|k: int|
                    range.start <= k < cursor && rm1.at(k) is None ==> exists|g: int|
                        0 <= g < gaps@.len() && (#[trigger] gaps@[g]).0 <= k < gaps@[g].1,
                self.pending_barrier.wf(),
                forall|k: int|
                    #![trigger self.pending_barrier.buf_at(buffer, k)]
                    range.spec_contains(k) && rm1.at(k) is Some && buf_needs_barrier(
                        rm1.at(k),
                        idx,
                        memory,
                    ) ==> buf_barrier_records(
                        self.pending_barrier.buf_at(buffer, k),
                        rm1.at(k)->0,
                        memory,
                    ),
                forall|b: u64, k: int|
                    !(b == buffer && range.spec_contains(k) && rm1.at(k) is Some
                        && buf_needs_barrier(rm1.at(k), idx, memory)) ==> #[trigger] self.pending_barrier.buf_at(
                        b,
                        k,
                    ) == pending0.buf_at(b, k),
                forall|b: u64, k: int|
                    #[trigger] self.pending_barrier.img_at(b, k) == pending0.img_at(b, k),
                no_buf_conflicts(rm1, range, idx, memory) ==> self.pending_barrier == pending0,
                self.buffers2@ == removed,
                self.img_entries() == mid.img_entries(),
                self.spec_commands() == mid.spec_commands(),
                self.spec_barriers() == mid.spec_barriers(),
                self.spec_emitted() == mid.spec_emitted(),
                self.spec_first_unflushed() == fu0,
                self.spec_buffers() == mid.spec_buffers(),
                self.spec_images() == mid.spec_images(),
                self.spec_buffer_uses() == mid.spec_buffer_uses(),
                self.spec_image_uses() == mid.spec_image_uses(),
                self.spec_state() == mid.spec_state(),
                self.spec_error() == mid.spec_error(),
                self.spec_inner() == mid.spec_inner(),
            decreases rm.entries().len() - i,
        {
            if i >= rm.num_entries() {
                proof {
                    assert forall|k: int| cursor <= k < range.end implies rm1.at(k) is None by {
                        if rm1.covers(k) {
                            let j = rm1.index_of(k);
                            rm1.lemma_at_entry(j, k);
                            assert(rm.entries()[j].end <= cursor);
                        }
                    }
                }
                break ;
            }
            let e = rm.entry(i);
            if e.start >= range.end {
                proof {
                    assert forall|k: int| cursor <= k < range.end implies rm1.at(k) is None by {
                        if rm1.covers(k) {
                            let j = rm1.index_of(k);
                            rm1.lemma_at_entry(j, k);
                            assert(rm.entries()[j].start == rm1.entries()[j].start);
                            if j < i {
                                assert(rm.entries()[j].end <= cursor);
                            } else {
                                assert(rm.entries()[j].start >= cursor);
                                assert(rm.entries()[i as int].start <= rm.entries()[j].start || j
                                    == i);
                            }
                        }
                    }
                }
                break ;
            }
            if cursor < e.start {
                let ghost gpre = gaps@;
                gaps.push((cursor, e.start));
                proof {
                    assert(forall|g: int| 0 <= g < gpre.len() ==> gaps@[g] == gpre[g]);
                    assert(gaps@[gaps@.len() - 1] == (cursor, e.start));
                    assert forall|k: int|
                        range.start <= k < e.start && #[trigger] rm1.at(k) is None implies exists|
                    g: int|
                        0 <= g < gaps@.len() && (#[trigger] gaps@[g]).0 <= k < gaps@[g].1 by {
                        if k < cursor {
                            let g0 = choose|g: int|
                                0 <= g < gpre.len() && (#[trigger] gpre[g]).0 <= k < gpre[g].1;
                            assert(gaps@[g0].0 <= k < gaps@[g0].1);
                        } else {
                            assert(gaps@[gaps@.len() - 1].0 <= k < gaps@[gaps@.len() - 1].1);
                        }
                    }
                    assert forall|k: int| cursor <= k < e.start implies #[trigger] rm1.at(k)
                        is None by {
                        if rm1.covers(k) {
                            let j = rm1.index_of(k);
                            rm1.lemma_at_entry(j, k);
                            if j < i {
                                assert(rm.entries()[j].end <= cursor);
                            } else {
                                assert(rm.entries()[j].start >= cursor);
                                if j > i {
                                    assert(rm.entries()[i as int].end <= rm.entries()[j].start);
                                }
                            }
                        }
                    }
                }
            }
            proof {
                rm1.lemma_at_entry(i as int, e.start as int);
                assert(rm1.at(e.start as int) == Some(e.value));
                assert(range.spec_contains(e.start as int));
                assert(e.end <= range.end);
            }
            let ghost pend_pre = self.pending_barrier;
            let conflict = e.value.last_command != idx && (e.value.exclusive || memory.exclusive);
            if conflict {
                proof {
                    assert(buf_needs_barrier(rm1.at(e.start as int), idx, memory));
                    assert(!no_buf_conflicts(rm1, range, idx, memory));
                }
                let bar = BufferMemoryBarrier {
                    buffer,
                    range: DeviceRange { start: e.start, end: e.end },
                    src_stages: e.value.stages,
                    src_access: e.value.access,
                    dst_stages: memory.stages,
                    dst_access: memory.access,
                };
                proof {
                    // The batch was flushed if this hazard was unflushed, so
                    // the prior access is older than the batch and its range
                    // cannot already carry a pending barrier.
                    assert(e.value.last_command < fu0) by {
                        assert(buf_hazard_unflushed(
                            rm1.at(e.start as int),
                            idx,
                            memory,
                            fu0,
                        ) == false);
                    }
                    assert forall|k: int|
                        bar.range.spec_contains(k) implies !self.pending_barrier.covers_buf(
                        buffer,
                        k,
                    ) by {
                        rm1.lemma_at_entry(i as int, k);
                        assert(self.pending_barrier.buf_at(buffer, k) == pending0.buf_at(buffer, k));
                        if self.pending_barrier.covers_buf(buffer, k) {
                            assert(pending0.buf_at(buffer, k) is Some);
                            assert(rm1.at(k)->0.last_command >= fu0);
                        }
                    }
                }
                self.pending_barrier.merge_buffer_barrier(bar);
                proof {
                    assert forall|k: int| bar.range.spec_contains(k) implies buf_barrier_records(
                        self.pending_barrier.buf_at(buffer, k),
                        rm1.at(k)->0,
                        memory,
                    ) by {
                        rm1.lemma_at_entry(i as int, k);
                    }
                    assert forall|k: int|
                        #![trigger self.pending_barrier.buf_at(buffer, k)]
                        range.start <= k < cursor && rm1.at(k) is Some && buf_needs_barrier(
                            rm1.at(k),
                            idx,
                            memory,
                        ) implies buf_barrier_records(
                        self.pending_barrier.buf_at(buffer, k),
                        rm1.at(k)->0,
                        memory,
                    ) by {
                        assert(!bar.range.spec_contains(k));
                        assert(self.pending_barrier.buf_at(buffer, k) == pend_pre.buf_at(
                            buffer,
                            k,
                        ));
                    }
                    assert forall|b: u64, k: int|
                        !(b == buffer && range.start <= k < e.end && rm1.at(k) is Some
                            && buf_needs_barrier(rm1.at(k), idx, memory)) implies #[trigger] self.pending_barrier.buf_at(
                        b,
                        k,
                    ) == pending0.buf_at(b, k) by {
                        if b == buffer && bar.range.spec_contains(k) {
                            rm1.lemma_at_entry(i as int, k);
                        } else {
                            assert(self.pending_barrier.buf_at(b, k) == pend_pre.buf_at(b, k));
                        }
                    }
                    assert(forall|b: u64, k: int|
                        #[trigger] self.pending_barrier.img_at(b, k) == pend_pre.img_at(b, k));
                }
            }
            let newv = Self::next_buf_state_exec(Some(e.value), idx, name, memory);
            let ghost rm_before = rm;
            rm.set_value(i, newv);
            proof {
                assert forall|k: int|
                    range.start <= k < e.end && rm1.at(k) is Some implies rm.at(k) == Some(
                    next_buf_state(rm1.at(k), idx, name, memory),
                ) by {
                    if e.start <= k < e.end {
                        rm1.lemma_at_entry(i as int, k);
                    } else {
                        assert(rm_before.at(k) == rm.at(k));
                    }
                }
                assert forall|k: int| e.start <= k < e.end implies rm1.at(k) is Some by {
                    rm1.lemma_at_entry(i as int, k);
                }
                assert forall|k: int|
                    #![trigger rm1.at(k)]
                    e.start <= k < e.end implies (buf_needs_barrier(rm1.at(k), idx, memory)
                    == conflict) by {
                    rm1.lemma_at_entry(i as int, k);
                }
                if !conflict {
                    assert(self.pending_barrier == pend_pre);
                }
                assert forall|k: int|
                    #![trigger self.pending_barrier.buf_at(buffer, k)]
                    range.start <= k < e.end && rm1.at(k) is Some && buf_needs_barrier(
                        rm1.at(k),
                        idx,
                        memory,
                    ) implies buf_barrier_records(
                    self.pending_barrier.buf_at(buffer, k),
                    rm1.at(k)->0,
                    memory,
                ) by {
                    if k < cursor {
                        if !conflict {
                            assert(self.pending_barrier.buf_at(buffer, k) == pend_pre.buf_at(
                                buffer,
                                k,
                            ));
                        }
                    } else if k < e.start {
                        assert(rm1.at(k) is None);
                    } else {
                        assert((DeviceRange { start: e.start, end: e.end }).spec_contains(k));
                    }
                }
            }
            cursor = e.end;
            i = i + 1;
        }
        let ghost gaps_pre = gaps@;
        if cursor < range.end {
            gaps.push((cursor, range.end));
            proof {
                assert(gaps@[gaps@.len() - 1] == (cursor, range.end));
            }
        }
        let ghost rm2 = rm;
        let ghost gaps_all = gaps@;
        proof {
            assert(forall|g: int| 0 <= g < gaps_pre.len() ==> gaps_all[g] == gaps_pre[g]);
            assert forall|k: int|
                range.start <= k < cursor && rm1.at(k) is None implies exists|g: int|
                0 <= g < gaps_all.len() && (#[trigger] gaps_all[g]).0 <= k < gaps_all[g].1 by {
                let g0 = choose|g: int|
                    0 <= g < gaps_pre.len() && (#[trigger] gaps_pre[g]).0 <= k < gaps_pre[g].1;
                assert(gaps_all[g0].0 <= k < gaps_all[g0].1);
            }
        }
        let gapv = Self::next_buf_state_exec(None, idx, name, memory);
        let mut g: usize = 0;
        loop
            invariant_except_break
                rm.wf(),
                rm1.wf(),
                range.wf(),
                range.start <= cursor <= range.end,
                gaps@ == gaps_all,
                gapv == next_buf_state(None, idx, name, memory),
                g <= gaps@.len(),
                forall|gg: int|
                    0 <= gg < gaps@.len() ==> range.start <= (#[trigger] gaps@[gg]).0 < gaps@[
                    gg].1 <= range.end,
                forall|g1: int, g2: int|
                    0 <= g1 < g2 < gaps@.len() ==> (#[trigger] gaps@[g1]).1 <= (#[trigger] gaps@[
                    g2]).0,
                forall|gg: int, k: int|
                    #![trigger gaps@[gg], rm1.at(k)]
                    0 <= gg < gaps@.len() && gaps@[gg].0 <= k < gaps@[gg].1 ==> rm1.at(k) is None,
                forall|gg: int, k: int|
                    #![trigger gaps@[gg], rm.at(k)]
                    g <= gg < gaps@.len() && gaps@[gg].0 <= k < gaps@[gg].1 ==> rm.at(k) == rm2.at(
                        k,
                    ) && rm.at(k) is None,
                forall|gg: int, k: int|
                    #![trigger gaps@[gg], rm.at(k)]
                    0 <= gg < g && gaps@[gg].0 <= k < gaps@[gg].1 ==> rm.at(k) == Some(gapv),
                forall|k: int|
                    #![trigger rm.at(k)]
                    (forall|gg: int|
                        0 <= gg < gaps@.len() ==> !((#[trigger] gaps@[gg]).0 <= k < gaps@[gg].1))
                        ==> rm.at(k) == rm2.at(k),
                forall|k: int|
                    range.start <= k < cursor && rm1.at(k) is Some ==> rm2.at(k) == Some(
                        next_buf_state(rm1.at(k), idx, name, memory),
                    ),
                forall|k: int| !(range.start <= k < cursor) ==> rm2.at(k) == rm1.at(k),
                forall|k: int| cursor <= k < range.end ==> rm1.at(k) is None,
                forall|k: int|
                    range.start <= k < cursor && rm1.at(k) is None ==> exists|gg: int|
                        0 <= gg < gaps@.len() && (#[trigger] gaps@[gg]).0 <= k < gaps@[gg].1,
                cursor < range.end ==> gaps@.len() > 0 && gaps@[gaps@.len() - 1] == (
                    cursor,
                    range.end,
                ),
            ensures
                rm.wf(),
                forall|k: int|
                    range.spec_contains(k) ==> rm.at(k) == Some(
                        next_buf_state(rm1.at(k), idx, name, memory),
                    ),
                forall|k: int| !range.spec_contains(k) ==> rm.at(k) == rm1.at(k),
            decreases gaps@.len() - g,
        {
            if g >= gaps.len() {
                proof {
                    assert forall|k: int| range.spec_contains(k) implies rm.at(k) == Some(
                        next_buf_state(rm1.at(k), idx, name, memory),
                    ) by {
                        if rm1.at(k) is Some {
                            assert(k < cursor);
                            assert forall|gg: int|
                                0 <= gg < gaps@.len() implies !((#[trigger] gaps@[gg]).0 <= k
                                < gaps@[gg].1) by {}
                            assert(rm.at(k) == rm2.at(k));
                        } else {
                            if k < cursor {
                                assert(exists|gg: int|
                                    0 <= gg < gaps@.len() && (#[trigger] gaps@[gg]).0 <= k
                                        < gaps@[gg].1);
                            } else {
                                assert(gaps@[gaps@.len() - 1].0 <= k < gaps@[gaps@.len() - 1].1);
                                assert(exists|gg: int|
                                    0 <= gg < gaps@.len() && (#[trigger] gaps@[gg]).0 <= k
                                        < gaps@[gg].1);
                            }
                            let gg = choose|gg: int|
                                0 <= gg < gaps@.len() && (#[trigger] gaps@[gg]).0 <= k
                                    < gaps@[gg].1;
                            assert(rm.at(k) == Some(gapv));
                        }
                    }
                    assert forall|k: int| !range.spec_contains(k) implies rm.at(k) == rm1.at(
                        k,
                    ) by {
                        assert forall|gg: int|
                            0 <= gg < gaps@.len() implies !((#[trigger] gaps@[gg]).0 <= k
                            < gaps@[gg].1) by {}
                        assert(rm.at(k) == rm2.at(k));
                    }
                }
                break ;
            }
            let (gs, ge) = gaps[g];
            rm.insert(gs, ge, gapv);
            g = g + 1;
        }
        self.buffers2.insert(idxe, (id, rm));
        proof {
            let fin = *self;
            assert(fin.spec_pending() == self.pending_barrier);
            assert(fin.buf_entries().len() == mid.buf_entries().len());
            assert(forall|j: int|
                0 <= j < fin.buf_entries().len() && j != idxe ==> #[trigger] fin.buf_entries()[j]
                    == mid.buf_entries()[j]);
            assert(fin.buf_entries()[idxe as int].0 == buffer);
            assert(fin.buf_entries()[idxe as int].1 == rm);
            lemma_apply_buf_finish(
                *old(self),
                mid,
                fin,
                idxe as int,
                buffer,
                idx,
                name,
                range,
                memory,
                rm_orig,
                rm1,
                rm,
                pending0,
                fu0,
            );
            if forall|k: int|
                range.spec_contains(k) ==> !buf_needs_barrier(
                    #[trigger] old(self).buf_tracked(buffer, k),
                    idx,
                    memory,
                ) {
                assert(no_buf_conflicts(rm1, range, idx, memory)) by {
                    assert forall|k: int|
                        range.spec_contains(k) implies !buf_needs_barrier(
                        #[trigger] rm1.at(k),
                        idx,
                        memory,
                    ) by {
                        assert(rm1.at(k) == old(self).buf_tracked(buffer, k));
                    }
                }
                assert(self.pending_barrier == pending0);
                assert(pending0 == old(self).spec_pending());
            }
        }
    }

    /// Applies one declared image access to the tracked state: updates every
    /// point of `range` by [`next_img_state`] and merges one barrier per
    /// conflicting stored range into the pending prototype.  The caller has
    /// already flushed if any conflict lay in the unflushed batch.
    #[verifier::rlimit(100)]
    #[verifier::spinoff_prover]
    fn apply_img_access(
        &mut self,
        idx: usize,
        name: ParamName,
        image: u64,
        range: DeviceRange,
        memory: PipelineMemoryAccess,
        start_layout: ImageLayout,
        end_layout: ImageLayout,
    )
        requires
            old(self).wf(),
            range.wf(),
            idx < old(self).spec_commands().len(),
            old(self).spec_first_unflushed() <= idx,
            forall|k: int|
                range.spec_contains(k) ==> !img_hazard_unflushed(
                    #[trigger] old(self).img_tracked(image, k),
                    idx,
                    memory,
                    start_layout,
                    old(self).spec_first_unflushed(),
                ),
        ensures
            final(self).wf(),
            forall|k: int|
                range.spec_contains(k) ==> final(self).img_tracked(image, k) == Some(
                    next_img_state(old(self).img_tracked(image, k), idx, name, memory, start_layout, end_layout),
                ),
            forall|b: u64, k: int|
                !(b == image && range.spec_contains(k)) ==> final(self).img_tracked(b, k) == old(self).img_tracked(b, k),
            forall|b: u64, k: int| final(self).buf_tracked(b, k) == old(self).buf_tracked(b, k),
            forall|k: int|
                #![trigger final(self).spec_pending().img_at(image, k)]
                range.spec_contains(k) && img_needs_barrier(
                    old(self).img_tracked(image, k),
                    idx,
                    memory,
                    start_layout,
                ) ==> img_barrier_records(
                    final(self).spec_pending().img_at(image, k),
                    old(self).img_tracked(image, k)->0,
                    memory,
                    start_layout,
                ),
            forall|b: u64, k: int|
                !(b == image && range.spec_contains(k) && img_needs_barrier(
                    old(self).img_tracked(b, k),
                    idx,
                    memory,
                    start_layout,
                )) ==> final(self).spec_pending().img_at(b, k) == old(self).spec_pending().img_at(
                    b,
                    k,
                ),
            forall|b: u64, k: int|
                final(self).spec_pending().buf_at(b, k) == old(self).spec_pending().buf_at(b, k),
            (forall|k: int|
                range.spec_contains(k) ==> !img_needs_barrier(
                    #[trigger] old(self).img_tracked(image, k),
                    idx,
                    memory,
                    start_layout,
                )) ==> final(self).spec_pending() == old(self).spec_pending(),
            final(self).spec_commands() == old(self).spec_commands(),
            final(self).spec_barriers() == old(self).spec_barriers(),
            final(self).spec_emitted() == old(self).spec_emitted(),
            final(self).spec_first_unflushed() == old(self).spec_first_unflushed(),
            final(self).spec_images() == old(self).spec_images(),
            final(self).spec_buffers() == old(self).spec_buffers(),
            final(self).spec_image_uses() == old(self).spec_image_uses(),
            final(self).spec_buffer_uses() == old(self).spec_buffer_uses(),
            final(self).spec_state() == old(self).spec_state(),
            final(self).spec_error() == old(self).spec_error(),
            final(self).spec_inner() == old(self).spec_inner(),
    {
        let idxe: usize = match self.find_tracked_image(image) {
            Some(i) => i,
            None => {
                let i = self.images2.len();
                self.images2.push((image, RangeMap::new()));
                proof {
                    assert(forall|j: int|
                        0 <= j < i ==> #[trigger] self.img_entries()[j]
                            == old(self).img_entries()[j]);
                    assert(self.img_entries()[i as int].0 == image);
                    assert(self.buf_entries() == old(self).buf_entries());
                    assert forall|i2: int, j2: int|
                        #![trigger self.img_entries()[i2].1.entries()[j2]]
                        0 <= i2 < self.img_entries().len() && 0 <= j2 < self.img_entries()[
                            i2].1.entries().len() implies self.img_entries()[
                    i2].1.entries()[j2].value.first_use.command_index < self.spec_commands().len()
                        && self.img_entries()[i2].1.entries()[j2].value.last_command
                        < self.spec_commands().len() by {
                        assert(i2 != i);
                        assert(self.img_entries()[i2] == old(self).img_entries()[i2]);
                    }
                    assert forall|b: u64, k: int| self.img_tracked(b, k) == old(self).img_tracked(
                        b,
                        k,
                    ) by {
                        if b == image {
                            self.lemma_img_lookup(i as int);
                        } else {
                            if old(self).spec_has_image(b) {
                                let j = old(self).img_idx(b);
                                old(self).lemma_img_lookup(j);
                                self.lemma_img_lookup(j);
                            } else {
                                assert(!self.spec_has_image(b));
                            }
                        }
                    }
                    assert forall|b: u64, k: int| self.buf_tracked(b, k) == old(self).buf_tracked(
                        b,
                        k,
                    ) by {}
                    assert(self.wf_core());
                    assert(forall|i2: int|
                        0 <= i2 < self.img_entries().len() && i2 != i ==> (
                        #[trigger] self.img_entries()[i2]).1.entries().len() > 0);
                    assert(forall|i2: int|
                        0 <= i2 < self.buf_entries().len() ==> (#[trigger] self.buf_entries()[
                        i2]).1.entries().len() > 0);
                }
                i
            },
        };
        let ghost mid = *self;
        proof {
            mid.lemma_img_lookup(idxe as int);
        }
        let (id, mut rm) = self.images2.remove(idxe);
        let ghost removed = self.images2@;
        let ghost rm_orig = rm;
        let ghost pending0 = self.pending_barrier;
        let ghost fu0 = self.first_unflushed;
        proof {
            // The tracked state of `buffer` is exactly this map.
            assert(forall|k: int|
                mid.img_tracked(image, k) == #[trigger] rm_orig.at(k));
            // Pending coverage facts, localized to this map.
            assert(forall|k: int|
                (#[trigger] pending0.img_at(image, k)) is Some ==> rm_orig.at(k) is Some
                    && rm_orig.at(k)->0.last_command >= fu0);
            // Pointwise state bounds from the entry-level invariant.
            assert forall|k: int| (#[trigger] rm_orig.at(k)) is Some implies rm_orig.at(
                k,
            )->0.first_use.command_index < mid.spec_commands().len() && rm_orig.at(
                k,
            )->0.last_command < mid.spec_commands().len() by {
                if rm_orig.covers(k) {
                    let j = rm_orig.index_of(k);
                    assert(rm_orig.entries()[j].value.first_use.command_index
                        < mid.spec_commands().len() && rm_orig.entries()[j].value.last_command
                        < mid.spec_commands().len());
                }
            }
        }
        rm.split_at(range.start);
        rm.split_at(range.end);
        let ghost rm1 = rm;
        proof {
            assert(forall|k: int| mid.img_tracked(image, k) == #[trigger] old(self).img_tracked(
                image,
                k,
            ));
            assert(forall|k: int| #[trigger] rm1.at(k) == rm_orig.at(k));
            assert(forall|k: int| #[trigger] rm1.at(k) == old(self).img_tracked(image, k));
        }
        let mut gaps: Vec<(u64, u64)> = Vec::new();
        let mut cursor: u64 = range.start;
        let mut i: usize = rm.lower_bound(range.start);
        loop
            invariant_except_break
                i <= rm.entries().len(),
                rm.wf(),
                rm1.wf(),
                range.wf(),
                range.start <= cursor <= range.end,
                rm.entries().len() == rm1.entries().len(),
                forall|j: int|
                    0 <= j < rm.entries().len() ==> (#[trigger] rm.entries()[j]).start
                        == rm1.entries()[j].start && rm.entries()[j].end == rm1.entries()[j].end,
                forall|j: int|
                    0 <= j < rm1.entries().len() ==> !((#[trigger] rm1.entries()[j]).start
                        < range.start && range.start < rm1.entries()[j].end),
                forall|j: int|
                    0 <= j < rm1.entries().len() ==> !((#[trigger] rm1.entries()[j]).start
                        < range.end && range.end < rm1.entries()[j].end),
                forall|j: int| 0 <= j < i ==> (#[trigger] rm.entries()[j]).end <= cursor,
                forall|j: int|
                    i <= j < rm.entries().len() ==> (#[trigger] rm.entries()[j]).start >= cursor,
                forall|k: int|
                    range.start <= k < cursor && rm1.at(k) is Some ==> rm.at(k) == Some(
                        next_img_state(rm1.at(k), idx, name, memory, start_layout, end_layout),
                    ),
                forall|k: int| !(range.start <= k < cursor) ==> rm.at(k) == rm1.at(k),
                forall|g: int|
                    0 <= g < gaps@.len() ==> range.start <= (#[trigger] gaps@[g]).0 < gaps@[g].1
                        <= range.end && gaps@[g].1 <= cursor,
                forall|g1: int, g2: int|
                    0 <= g1 < g2 < gaps@.len() ==> (#[trigger] gaps@[g1]).1 <= (#[trigger] gaps@[
                    g2]).0,
                forall|g: int, k: int|
                    #![trigger gaps@[g], rm1.at(k)]
                    0 <= g < gaps@.len() && gaps@[g].0 <= k < gaps@[g].1 ==> rm1.at(k) is None
                        && rm.at(k) is None,
                forall|k: int|
                    range.start <= k < cursor && rm1.at(k) is None ==> exists|g: int|
                        0 <= g < gaps@.len() && (#[trigger] gaps@[g]).0 <= k < gaps@[g].1,
                // hazards were already flushed
                forall|k: int|
                    range.spec_contains(k) ==> !img_hazard_unflushed(
                        #[trigger] rm1.at(k),
                        idx,
                        memory,
                        start_layout,
                        fu0,
                    ),
                // pending coverage of the original map
                forall|k: int|
                    (#[trigger] pending0.img_at(image, k)) is Some ==> rm1.at(k) is Some
                        && rm1.at(k)->0.last_command >= fu0,
                // pending evolution
                self.pending_barrier.wf(),
                forall|k: int|
                    #![trigger self.pending_barrier.img_at(image, k)]
                    range.start <= k < cursor && rm1.at(k) is Some && img_needs_barrier(
                        rm1.at(k),
                        idx,
                        memory,
                        start_layout,
                    ) ==> img_barrier_records(
                        self.pending_barrier.img_at(image, k),
                        rm1.at(k)->0,
                        memory,
                        start_layout,
                    ),
                forall|b: u64, k: int|
                    !(b == image && range.start <= k < cursor && rm1.at(k) is Some
                        && img_needs_barrier(rm1.at(k), idx, memory, start_layout)) ==> #[trigger] self.pending_barrier.img_at(
                        b,
                        k,
                    ) == pending0.img_at(b, k),
                forall|b: u64, k: int|
                    #[trigger] self.pending_barrier.buf_at(b, k) == pending0.buf_at(b, k),
                no_img_conflicts(rm1, range, idx, memory, start_layout)
                    ==> self.pending_barrier == pending0,
                // frame on the rest of the builder
                self.images2@ == removed,
                self.buf_entries() == mid.buf_entries(),
                self.spec_commands() == mid.spec_commands(),
                self.spec_barriers() == mid.spec_barriers(),
                self.spec_emitted() == mid.spec_emitted(),
                self.spec_first_unflushed() == fu0,
                self.spec_images() == mid.spec_images(),
                self.spec_buffers() == mid.spec_buffers(),
                self.spec_image_uses() == mid.spec_image_uses(),
                self.spec_buffer_uses() == mid.spec_buffer_uses(),
                self.spec_state() == mid.spec_state(),
                self.spec_error() == mid.spec_error(),
                self.spec_inner() == mid.spec_inner(),
            ensures
                rm.wf(),
                rm1.wf(),
                range.start <= cursor <= range.end,
                forall|k: int|
                    range.start <= k < cursor && rm1.at(k) is Some ==> rm.at(k) == Some(
                        next_img_state(rm1.at(k), idx, name, memory, start_layout, end_layout),
                    ),
                forall|k: int| !(range.start <= k < cursor) ==> rm.at(k) == rm1.at(k),
                forall|k: int| cursor <= k < range.end ==> rm1.at(k) is None,
                forall|g: int|
                    0 <= g < gaps@.len() ==> range.start <= (#[trigger] gaps@[g]).0 < gaps@[g].1
                        <= range.end && gaps@[g].1 <= cursor,
                forall|g1: int, g2: int|
                    0 <= g1 < g2 < gaps@.len() ==> (#[trigger] gaps@[g1]).1 <= (#[trigger] gaps@[
                    g2]).0,
                forall|g: int, k: int|
                    #![trigger gaps@[g], rm1.at(k)]
                    0 <= g < gaps@.len() && gaps@[g].0 <= k < gaps@[g].1 ==> rm1.at(k) is None
                        && rm.at(k) is None,
                forall|k: int|
                    range.start <= k < cursor && rm1.at(k) is None ==> exists|g: int|
                        0 <= g < gaps@.len() && (#[trigger] gaps@[g]).0 <= k < gaps@[g].1,
                self.pending_barrier.wf(),
                forall|k: int|
                    #![trigger self.pending_barrier.img_at(image, k)]
                    range.spec_contains(k) && rm1.at(k) is Some && img_needs_barrier(
                        rm1.at(k),
                        idx,
                        memory,
                        start_layout,
                    ) ==> img_barrier_records(
                        self.pending_barrier.img_at(image, k),
                        rm1.at(k)->0,
                        memory,
                        start_layout,
                    ),
                forall|b: u64, k: int|
                    !(b == image && range.spec_contains(k) && rm1.at(k) is Some
                        && img_needs_barrier(rm1.at(k), idx, memory, start_layout)) ==> #[trigger] self.pending_barrier.img_at(
                        b,
                        k,
                    ) == pending0.img_at(b, k),
                forall|b: u64, k: int|
                    #[trigger] self.pending_barrier.buf_at(b, k) == pending0.buf_at(b, k),
                no_img_conflicts(rm1, range, idx, memory, start_layout)
                    ==> self.pending_barrier == pending0,
                self.images2@ == removed,
                self.buf_entries() == mid.buf_entries(),
                self.spec_commands() == mid.spec_commands(),
                self.spec_barriers() == mid.spec_barriers(),
                self.spec_emitted() == mid.spec_emitted(),
                self.spec_first_unflushed() == fu0,
                self.spec_images() == mid.spec_images(),
                self.spec_buffers() == mid.spec_buffers(),
                self.spec_image_uses() == mid.spec_image_uses(),
                self.spec_buffer_uses() == mid.spec_buffer_uses(),
                self.spec_state() == mid.spec_state(),
                self.spec_error() == mid.spec_error(),
                self.spec_inner() == mid.spec_inner(),
            decreases rm.entries().len() - i,
        {
            if i >= rm.num_entries() {
                proof {
                    assert forall|k: int| cursor <= k < range.end implies rm1.at(k) is None by {
                        if rm1.covers(k) {
                            let j = rm1.index_of(k);
                            rm1.lemma_at_entry(j, k);
                            assert(rm.entries()[j].end <= cursor);
                        }
                    }
                }
                break ;
            }
            let e = rm.entry(i);
            if e.start >= range.end {
                proof {
                    assert forall|k: int| cursor <= k < range.end implies rm1.at(k) is None by {
                        if rm1.covers(k) {
                            let j = rm1.index_of(k);
                            rm1.lemma_at_entry(j, k);
                            assert(rm.entries()[j].start == rm1.entries()[j].start);
                            if j < i {
                                assert(rm.entries()[j].end <= cursor);
                            } else {
                                assert(rm.entries()[j].start >= cursor);
                                assert(rm.entries()[i as int].start <= rm.entries()[j].start || j
                                    == i);
                            }
                        }
                    }
                }
                break ;
            }
            if cursor < e.start {
                let ghost gpre = gaps@;
                gaps.push((cursor, e.start));
                proof {
                    assert(forall|g: int| 0 <= g < gpre.len() ==> gaps@[g] == gpre[g]);
                    assert(gaps@[gaps@.len() - 1] == (cursor, e.start));
                    assert forall|k: int|
                        range.start <= k < e.start && #[trigger] rm1.at(k) is None implies exists|
                    g: int|
                        0 <= g < gaps@.len() && (#[trigger] gaps@[g]).0 <= k < gaps@[g].1 by {
                        if k < cursor {
                            let g0 = choose|g: int|
                                0 <= g < gpre.len() && (#[trigger] gpre[g]).0 <= k < gpre[g].1;
                            assert(gaps@[g0].0 <= k < gaps@[g0].1);
                        } else {
                            assert(gaps@[gaps@.len() - 1].0 <= k < gaps@[gaps@.len() - 1].1);
                        }
                    }
                    assert forall|k: int| cursor <= k < e.start implies #[trigger] rm1.at(k)
                        is None by {
                        if rm1.covers(k) {
                            let j = rm1.index_of(k);
                            rm1.lemma_at_entry(j, k);
                            if j < i {
                                assert(rm.entries()[j].end <= cursor);
                            } else {
                                assert(rm.entries()[j].start >= cursor);
                                if j > i {
                                    assert(rm.entries()[i as int].end <= rm.entries()[j].start);
                                }
                            }
                        }
                    }
                }
            }
            proof {
                rm1.lemma_at_entry(i as int, e.start as int);
                assert(rm1.at(e.start as int) == Some(e.value));
                assert(range.spec_contains(e.start as int));
                assert(e.end <= range.end);
            }
            let ghost pend_pre = self.pending_barrier;
            let conflict = e.value.last_command != idx && (e.value.exclusive || memory.exclusive
                || e.value.final_layout != start_layout);
            if conflict {
                proof {
                    assert(img_needs_barrier(rm1.at(e.start as int), idx, memory, start_layout));
                    assert(!no_img_conflicts(rm1, range, idx, memory, start_layout));
                }
                let bar = ImageMemoryBarrier {
                    image,
                    range: DeviceRange { start: e.start, end: e.end },
                    src_stages: e.value.stages,
                    src_access: e.value.access,
                    dst_stages: memory.stages,
                    dst_access: memory.access,
                    old_layout: e.value.final_layout,
                    new_layout: start_layout,
                };
                proof {
                    // The batch was flushed if this hazard was unflushed, so
                    // the prior access is older than the batch and its range
                    // cannot already carry a pending barrier.
                    assert(e.value.last_command < fu0) by {
                        assert(img_hazard_unflushed(
                            rm1.at(e.start as int),
                            idx,
                            memory,
                            start_layout,
                            fu0,
                        ) == false);
                    }
                    assert forall|k: int|
                        bar.range.spec_contains(k) implies !self.pending_barrier.covers_img(
                        image,
                        k,
                    ) by {
                        rm1.lemma_at_entry(i as int, k);
                        assert(self.pending_barrier.img_at(image, k) == pending0.img_at(image, k));
                        if self.pending_barrier.covers_img(image, k) {
                            assert(pending0.img_at(image, k) is Some);
                            assert(rm1.at(k)->0.last_command >= fu0);
                        }
                    }
                }
                self.pending_barrier.merge_image_barrier(bar);
                proof {
                    assert forall|k: int| bar.range.spec_contains(k) implies img_barrier_records(
                        self.pending_barrier.img_at(image, k),
                        rm1.at(k)->0,
                        memory,
                        start_layout,
                    ) by {
                        rm1.lemma_at_entry(i as int, k);
                    }
                    assert forall|k: int|
                        #![trigger self.pending_barrier.img_at(image, k)]
                        range.start <= k < cursor && rm1.at(k) is Some && img_needs_barrier(
                            rm1.at(k),
                            idx,
                            memory,
                            start_layout,
                        ) implies img_barrier_records(
                        self.pending_barrier.img_at(image, k),
                        rm1.at(k)->0,
                        memory,
                        start_layout,
                    ) by {
                        assert(!bar.range.spec_contains(k));
                        assert(self.pending_barrier.img_at(image, k) == pend_pre.img_at(
                            image,
                            k,
                        ));
                    }
                    assert forall|b: u64, k: int|
                        !(b == image && range.start <= k < e.end && rm1.at(k) is Some
                            && img_needs_barrier(rm1.at(k), idx, memory, start_layout)) implies #[trigger] self.pending_barrier.img_at(
                        b,
                        k,
                    ) == pending0.img_at(b, k) by {
                        if b == image && bar.range.spec_contains(k) {
                            rm1.lemma_at_entry(i as int, k);
                        } else {
                            assert(self.pending_barrier.img_at(b, k) == pend_pre.img_at(b, k));
                        }
                    }
                    assert(forall|b: u64, k: int|
                        #[trigger] self.pending_barrier.buf_at(b, k) == pend_pre.buf_at(b, k));
                }
            }
            let newv = Self::next_img_state_exec(
                Some(e.value),
                idx,
                name,
                memory,
                start_layout,
                end_layout,
            );
            let ghost rm_before = rm;
            rm.set_value(i, newv);
            proof {
                assert forall|k: int|
                    range.start <= k < e.end && rm1.at(k) is Some implies rm.at(k) == Some(
                    next_img_state(rm1.at(k), idx, name, memory, start_layout, end_layout),
                ) by {
                    if e.start <= k < e.end {
                        rm1.lemma_at_entry(i as int, k);
                    } else {
                        assert(rm_before.at(k) == rm.at(k));
                    }
                }
                assert forall|k: int| e.start <= k < e.end implies rm1.at(k) is Some by {
                    rm1.lemma_at_entry(i as int, k);
                }
                assert forall|k: int|
                    #![trigger rm1.at(k)]
                    e.start <= k < e.end implies (img_needs_barrier(rm1.at(k), idx, memory, start_layout)
                    == conflict) by {
                    rm1.lemma_at_entry(i as int, k);
                }
                if !conflict {
                    assert(self.pending_barrier == pend_pre);
                }
                assert forall|k: int|
                    #![trigger self.pending_barrier.img_at(image, k)]
                    range.start <= k < e.end && rm1.at(k) is Some && img_needs_barrier(
                        rm1.at(k),
                        idx,
                        memory,
                        start_layout,
                    ) implies img_barrier_records(
                    self.pending_barrier.img_at(image, k),
                    rm1.at(k)->0,
                    memory,
                    start_layout,
                ) by {
                    if k < cursor {
                        if !conflict {
                            assert(self.pending_barrier.img_at(image, k) == pend_pre.img_at(
                                image,
                                k,
                            ));
                        }
                    } else if k < e.start {
                        assert(rm1.at(k) is None);
                    } else {
                        assert((DeviceRange { start: e.start, end: e.end }).spec_contains(k));
                    }
                }
            }
            cursor = e.end;
            i = i + 1;
        }
        let ghost gaps_pre = gaps@;
        if cursor < range.end {
            gaps.push((cursor, range.end));
            proof {
                assert(gaps@[gaps@.len() - 1] == (cursor, range.end));
            }
        }
        let ghost rm2 = rm;
        let ghost gaps_all = gaps@;
        proof {
            assert(forall|g: int| 0 <= g < gaps_pre.len() ==> gaps_all[g] == gaps_pre[g]);
            assert forall|k: int|
                range.start <= k < cursor && rm1.at(k) is None implies exists|g: int|
                0 <= g < gaps_all.len() && (#[trigger] gaps_all[g]).0 <= k < gaps_all[g].1 by {
                let g0 = choose|g: int|
                    0 <= g < gaps_pre.len() && (#[trigger] gaps_pre[g]).0 <= k < gaps_pre[g].1;
                assert(gaps_all[g0].0 <= k < gaps_all[g0].1);
            }
        }
        let gapv = Self::next_img_state_exec(None, idx, name, memory, start_layout, end_layout);
        let mut g: usize = 0;
        loop
            invariant_except_break
                rm.wf(),
                rm1.wf(),
                range.wf(),
                range.start <= cursor <= range.end,
                gaps@ == gaps_all,
                gapv == next_img_state(None, idx, name, memory, start_layout, end_layout),
                g <= gaps@.len(),
                forall|gg: int|
                    0 <= gg < gaps@.len() ==> range.start <= (#[trigger] gaps@[gg]).0 < gaps@[
                    gg].1 <= range.end,
                forall|g1: int, g2: int|
                    0 <= g1 < g2 < gaps@.len() ==> (#[trigger] gaps@[g1]).1 <= (#[trigger] gaps@[
                    g2]).0,
                forall|gg: int, k: int|
                    #![trigger gaps@[gg], rm1.at(k)]
                    0 <= gg < gaps@.len() && gaps@[gg].0 <= k < gaps@[gg].1 ==> rm1.at(k) is None,
                forall|gg: int, k: int|
                    #![trigger gaps@[gg], rm.at(k)]
                    g <= gg < gaps@.len() && gaps@[gg].0 <= k < gaps@[gg].1 ==> rm.at(k) == rm2.at(
                        k,
                    ) && rm.at(k) is None,
                forall|gg: int, k: int|
                    #![trigger gaps@[gg], rm.at(k)]
                    0 <= gg < g && gaps@[gg].0 <= k < gaps@[gg].1 ==> rm.at(k) == Some(gapv),
                forall|k: int|
                    #![trigger rm.at(k)]
                    (forall|gg: int|
                        0 <= gg < gaps@.len() ==> !((#[trigger] gaps@[gg]).0 <= k < gaps@[gg].1))
                        ==> rm.at(k) == rm2.at(k),
                forall|k: int|
                    range.start <= k < cursor && rm1.at(k) is Some ==> rm2.at(k) == Some(
                        next_img_state(rm1.at(k), idx, name, memory, start_layout, end_layout),
                    ),
                forall|k: int| !(range.start <= k < cursor) ==> rm2.at(k) == rm1.at(k),
                forall|k: int| cursor <= k < range.end ==> rm1.at(k) is None,
                forall|k: int|
                    range.start <= k < cursor && rm1.at(k) is None ==> exists|gg: int|
                        0 <= gg < gaps@.len() && (#[trigger] gaps@[gg]).0 <= k < gaps@[gg].1,
                cursor < range.end ==> gaps@.len() > 0 && gaps@[gaps@.len() - 1] == (
                    cursor,
                    range.end,
                ),
            ensures
                rm.wf(),
                forall|k: int|
                    range.spec_contains(k) ==> rm.at(k) == Some(
                        next_img_state(rm1.at(k), idx, name, memory, start_layout, end_layout),
                    ),
                forall|k: int| !range.spec_contains(k) ==> rm.at(k) == rm1.at(k),
            decreases gaps@.len() - g,
        {
            if g >= gaps.len() {
                proof {
                    assert forall|k: int| range.spec_contains(k) implies rm.at(k) == Some(
                        next_img_state(rm1.at(k), idx, name, memory, start_layout, end_layout),
                    ) by {
                        if rm1.at(k) is Some {
                            assert(k < cursor);
                            assert forall|gg: int|
                                0 <= gg < gaps@.len() implies !((#[trigger] gaps@[gg]).0 <= k
                                < gaps@[gg].1) by {}
                            assert(rm.at(k) == rm2.at(k));
                        } else {
                            if k < cursor {
                                assert(exists|gg: int|
                                    0 <= gg < gaps@.len() && (#[trigger] gaps@[gg]).0 <= k
                                        < gaps@[gg].1);
                            } else {
                                assert(gaps@[gaps@.len() - 1].0 <= k < gaps@[gaps@.len() - 1].1);
                                assert(exists|gg: int|
                                    0 <= gg < gaps@.len() && (#[trigger] gaps@[gg]).0 <= k
                                        < gaps@[gg].1);
                            }
                            let gg = choose|gg: int|
                                0 <= gg < gaps@.len() && (#[trigger] gaps@[gg]).0 <= k
                                    < gaps@[gg].1;
                            assert(rm.at(k) == Some(gapv));
                        }
                    }
                    assert forall|k: int| !range.spec_contains(k) implies rm.at(k) == rm1.at(
                        k,
                    ) by {
                        assert forall|gg: int|
                            0 <= gg < gaps@.len() implies !((#[trigger] gaps@[gg]).0 <= k
                            < gaps@[gg].1) by {}
                        assert(rm.at(k) == rm2.at(k));
                    }
                }
                break ;
            }
            let (gs, ge) = gaps[g];
            rm.insert(gs, ge, gapv);
            g = g + 1;
        }
        self.images2.insert(idxe, (id, rm));
        proof {
            let fin = *self;
            assert(fin.spec_pending() == self.pending_barrier);
            assert(fin.img_entries().len() == mid.img_entries().len());
            assert(forall|j: int|
                0 <= j < fin.img_entries().len() && j != idxe ==> #[trigger] fin.img_entries()[j]
                    == mid.img_entries()[j]);
            assert(fin.img_entries()[idxe as int].0 == image);
            assert(fin.img_entries()[idxe as int].1 == rm);
            lemma_apply_img_finish(
                *old(self),
                mid,
                fin,
                idxe as int,
                image,
                idx,
                name,
                range,
                memory,
                start_layout,
                end_layout,
                rm_orig,
                rm1,
                rm,
                pending0,
                fu0,
            );
            if forall|k: int|
                range.spec_contains(k) ==> !img_needs_barrier(
                    #[trigger] old(self).img_tracked(image, k),
                    idx,
                    memory,
                    start_layout,
                ) {
                assert(no_img_conflicts(rm1, range, idx, memory, start_layout)) by {
                    assert forall|k: int|
                        range.spec_contains(k) implies !img_needs_barrier(
                        #[trigger] rm1.at(k),
                        idx,
                        memory,
                        start_layout,
                    ) by {
                        assert(rm1.at(k) == old(self).img_tracked(image, k));
                    }
                }
                assert(self.pending_barrier == pending0);
                assert(pending0 == old(self).spec_pending());
            }
        }
    }

    /// Records one declared buffer access of command `idx`: notes the use,
    /// flushes the pending batch if the hazard lies inside it, and applies
    /// the access to the tracked state, merging any owed barrier.
    fn record_buffer_access(
        &mut self,
        idx: usize,
        name: ParamName,
        buffer: u64,
        range: DeviceRange,
        memory: PipelineMemoryAccess,
    )
        requires
            old(self).wf(),
            range.wf(),
            old(self).spec_commands().len() >= 1,
            idx as int == old(self).spec_commands().len() - 1,
            old(self).spec_first_unflushed() <= idx,
        ensures
            final(self).wf(),
            final(self).spec_buffer_uses() == old(self).spec_buffer_uses().push(
                BufferUse {
                    resource_use: ResourceUse { command_index: idx, name },
                    buffer,
                    range,
                    memory,
                },
            ),
            forall|k: int|
                range.spec_contains(k) ==> final(self).buf_tracked(buffer, k) == Some(
                    next_buf_state(old(self).buf_tracked(buffer, k), idx, name, memory),
                ),
            forall|b: u64, k: int|
                !(b == buffer && range.spec_contains(k)) ==> final(self).buf_tracked(b, k) == old(self).buf_tracked(b, k),
            forall|b: u64, k: int| final(self).img_tracked(b, k) == old(self).img_tracked(b, k),
            (exists|k: int|
                range.spec_contains(k) && buf_hazard_unflushed(
                    #[trigger] old(self).buf_tracked(buffer, k),
                    idx,
                    memory,
                    old(self).spec_first_unflushed(),
                )) ==> final(self).spec_first_unflushed() == idx && final(self).spec_barriers()
                == flush_boundaries(
                old(self).spec_barriers(),
                old(self).spec_first_unflushed(),
                idx,
            ) && final(self).spec_emitted() == (if old(self).spec_pending().spec_is_empty() {
                old(self).spec_emitted()
            } else {
                old(self).spec_emitted().push(
                    EmittedBarrier {
                        position: old(self).spec_first_unflushed(),
                        barrier: old(self).spec_pending(),
                    },
                )
            }),
            !(exists|k: int|
                range.spec_contains(k) && buf_hazard_unflushed(
                    #[trigger] old(self).buf_tracked(buffer, k),
                    idx,
                    memory,
                    old(self).spec_first_unflushed(),
                )) ==> final(self).spec_first_unflushed() == old(self).spec_first_unflushed()
                && final(self).spec_barriers() == old(self).spec_barriers() && final(self).spec_emitted() == old(self).spec_emitted(),
            forall|k: int|
                #![trigger final(self).spec_pending().buf_at(buffer, k)]
                range.spec_contains(k) && buf_needs_barrier(
                    old(self).buf_tracked(buffer, k),
                    idx,
                    memory,
                ) ==> buf_barrier_records(
                    final(self).spec_pending().buf_at(buffer, k),
                    old(self).buf_tracked(buffer, k)->0,
                    memory,
                ),
            forall|b: u64, k: int|
                !(b == buffer && range.spec_contains(k) && buf_needs_barrier(
                    old(self).buf_tracked(b, k),
                    idx,
                    memory,
                )) ==> final(self).spec_pending().buf_at(b, k) == (if (exists|k2: int|
                    range.spec_contains(k2) && buf_hazard_unflushed(
                        #[trigger] old(self).buf_tracked(buffer, k2),
                        idx,
                        memory,
                        old(self).spec_first_unflushed(),
                    )) {
                    None::<BufferMemoryBarrier>
                } else {
                    old(self).spec_pending().buf_at(b, k)
                }),
            forall|b: u64, k: int|
                final(self).spec_pending().img_at(b, k) == (if (exists|k2: int|
                    range.spec_contains(k2) && buf_hazard_unflushed(
                        #[trigger] old(self).buf_tracked(buffer, k2),
                        idx,
                        memory,
                        old(self).spec_first_unflushed(),
                    )) {
                    None::<ImageMemoryBarrier>
                } else {
                    old(self).spec_pending().img_at(b, k)
                }),
            (forall|k: int|
                range.spec_contains(k) ==> !buf_needs_barrier(
                    #[trigger] old(self).buf_tracked(buffer, k),
                    idx,
                    memory,
                )) ==> final(self).spec_pending() == old(self).spec_pending(),
            final(self).spec_commands() == old(self).spec_commands(),
            final(self).spec_images() == old(self).spec_images(),
            final(self).spec_image_uses() == old(self).spec_image_uses(),
            final(self).spec_state() == old(self).spec_state(),
            final(self).spec_error() == old(self).spec_error(),
            final(self).spec_inner() == old(self).spec_inner(),
    {
        let u = BufferUse {
            resource_use: ResourceUse { command_index: idx, name },
            buffer,
            range,
            memory,
        };
        self.note_buffer_use(u);
        proof {
            assert(self.wf());
            assert(forall|b: u64, k: int|
                #[trigger] self.buf_tracked(b, k) == old(self).buf_tracked(b, k));
            assert(forall|b: u64, k: int|
                #[trigger] self.img_tracked(b, k) == old(self).img_tracked(b, k));
        }
        let hz = self.scan_buf_hazard(idx, buffer, range, memory);
        if hz {
            self.flush_pending(idx);
            proof {
                assert forall|k: int|
                    range.spec_contains(k) implies !buf_hazard_unflushed(
                    #[trigger] self.buf_tracked(buffer, k),
                    idx,
                    memory,
                    self.spec_first_unflushed(),
                ) by {
                    if self.buf_tracked(buffer, k) is Some {
                        assert(self.buf_tracked(buffer, k)->0.last_command
                            < self.spec_commands().len()) by {
                            let i = self.buf_idx(buffer);
                            let rm = self.buf_entries()[i].1;
                            if rm.covers(k) {
                                let j = rm.index_of(k);
                                assert(self.buf_entries()[i].1.entries()[j].value.last_command
                                    < self.spec_commands().len());
                            }
                        }
                    }
                }
            }
        }
        let ghost pre_apply = *self;
        self.apply_buf_access(idx, name, buffer, range, memory);
        proof {
            if forall|k: int|
                range.spec_contains(k) ==> !buf_needs_barrier(
                    #[trigger] old(self).buf_tracked(buffer, k),
                    idx,
                    memory,
                ) {
                assert(forall|k: int|
                    range.spec_contains(k) ==> #[trigger] pre_apply.buf_tracked(buffer, k) == old(self).buf_tracked(buffer, k));
                assert(pre_apply.spec_pending() == old(self).spec_pending());
                assert(self.spec_pending() == pre_apply.spec_pending());
            }
        }
    }

    /// Records one declared image access of command `idx`, mirroring
    /// [`SyncCommandBufferBuilder::record_buffer_access`].
    fn record_image_access(
        &mut self,
        idx: usize,
        name: ParamName,
        image: u64,
        range: DeviceRange,
        memory: PipelineMemoryAccess,
        start_layout: ImageLayout,
        end_layout: ImageLayout,
    )
        requires
            old(self).wf(),
            range.wf(),
            old(self).spec_commands().len() >= 1,
            idx as int == old(self).spec_commands().len() - 1,
            old(self).spec_first_unflushed() <= idx,
        ensures
            final(self).wf(),
            final(self).spec_image_uses() == old(self).spec_image_uses().push(
                ImageUse {
                    resource_use: ResourceUse { command_index: idx, name },
                    image,
                    range,
                    memory,
                    start_layout,
                    end_layout,
                },
            ),
            forall|k: int|
                range.spec_contains(k) ==> final(self).img_tracked(image, k) == Some(
                    next_img_state(
                        old(self).img_tracked(image, k),
                        idx,
                        name,
                        memory,
                        start_layout,
                        end_layout,
                    ),
                ),
            forall|b: u64, k: int|
                !(b == image && range.spec_contains(k)) ==> final(self).img_tracked(b, k) == old(self).img_tracked(b, k),
            forall|b: u64, k: int| final(self).buf_tracked(b, k) == old(self).buf_tracked(b, k),
            (exists|k: int|
                range.spec_contains(k) && img_hazard_unflushed(
                    #[trigger] old(self).img_tracked(image, k),
                    idx,
                    memory,
                    start_layout,
                    old(self).spec_first_unflushed(),
                )) ==> final(self).spec_first_unflushed() == idx && final(self).spec_barriers()
                == flush_boundaries(
                old(self).spec_barriers(),
                old(self).spec_first_unflushed(),
                idx,
            ) && final(self).spec_emitted() == (if old(self).spec_pending().spec_is_empty() {
                old(self).spec_emitted()
            } else {
                old(self).spec_emitted().push(
                    EmittedBarrier {
                        position: old(self).spec_first_unflushed(),
                        barrier: old(self).spec_pending(),
                    },
                )
            }),
            !(exists|k: int|
                range.spec_contains(k) && img_hazard_unflushed(
                    #[trigger] old(self).img_tracked(image, k),
                    idx,
                    memory,
                    start_layout,
                    old(self).spec_first_unflushed(),
                )) ==> final(self).spec_first_unflushed() == old(self).spec_first_unflushed()
                && final(self).spec_barriers() == old(self).spec_barriers() && final(self).spec_emitted() == old(self).spec_emitted(),
            forall|k: int|
                #![trigger final(self).spec_pending().img_at(image, k)]
                range.spec_contains(k) && img_needs_barrier(
                    old(self).img_tracked(image, k),
                    idx,
                    memory,
                    start_layout,
                ) ==> img_barrier_records(
                    final(self).spec_pending().img_at(image, k),
                    old(self).img_tracked(image, k)->0,
                    memory,
                    start_layout,
                ),
            forall|b: u64, k: int|
                !(b == image && range.spec_contains(k) && img_needs_barrier(
                    old(self).img_tracked(b, k),
                    idx,
                    memory,
                    start_layout,
                )) ==> final(self).spec_pending().img_at(b, k) == (if (exists|k2: int|
                    range.spec_contains(k2) && img_hazard_unflushed(
                        #[trigger] old(self).img_tracked(image, k2),
                        idx,
                        memory,
                        start_layout,
                        old(self).spec_first_unflushed(),
                    )) {
                    None::<ImageMemoryBarrier>
                } else {
                    old(self).spec_pending().img_at(b, k)
                }),
            forall|b: u64, k: int|
                final(self).spec_pending().buf_at(b, k) == (if (exists|k2: int|
                    range.spec_contains(k2) && img_hazard_unflushed(
                        #[trigger] old(self).img_tracked(image, k2),
                        idx,
                        memory,
                        start_layout,
                        old(self).spec_first_unflushed(),
                    )) {
                    None::<BufferMemoryBarrier>
                } else {
                    old(self).spec_pending().buf_at(b, k)
                }),
            (forall|k: int|
                range.spec_contains(k) ==> !img_needs_barrier(
                    #[trigger] old(self).img_tracked(image, k),
                    idx,
                    memory,
                    start_layout,
                )) ==> final(self).spec_pending() == old(self).spec_pending(),
            final(self).spec_commands() == old(self).spec_commands(),
            final(self).spec_buffers() == old(self).spec_buffers(),
            final(self).spec_buffer_uses() == old(self).spec_buffer_uses(),
            final(self).spec_state() == old(self).spec_state(),
            final(self).spec_error() == old(self).spec_error(),
            final(self).spec_inner() == old(self).spec_inner(),
    {
        let u = ImageUse {
            resource_use: ResourceUse { command_index: idx, name },
            image,
            range,
            memory,
            start_layout,
            end_layout,
        };
        self.note_image_use(u);
        proof {
            assert(self.wf());
            assert(forall|b: u64, k: int|
                #[trigger] self.buf_tracked(b, k) == old(self).buf_tracked(b, k));
            assert(forall|b: u64, k: int|
                #[trigger] self.img_tracked(b, k) == old(self).img_tracked(b, k));
        }
        let hz = self.scan_img_hazard(idx, image, range, memory, start_layout);
        if hz {
            self.flush_pending(idx);
            proof {
                assert forall|k: int|
                    range.spec_contains(k) implies !img_hazard_unflushed(
                    #[trigger] self.img_tracked(image, k),
                    idx,
                    memory,
                    start_layout,
                    self.spec_first_unflushed(),
                ) by {
                    if self.img_tracked(image, k) is Some {
                        assert(self.img_tracked(image, k)->0.last_command
                            < self.spec_commands().len()) by {
                            let i = self.img_idx(image);
                            let rm = self.img_entries()[i].1;
                            if rm.covers(k) {
                                let j = rm.index_of(k);
                                assert(self.img_entries()[i].1.entries()[j].value.last_command
                                    < self.spec_commands().len());
                            }
                        }
                    }
                }
            }
        }
        let ghost pre_apply = *self;
        self.apply_img_access(idx, name, image, range, memory, start_layout, end_layout);
        proof {
            if forall|k: int|
                range.spec_contains(k) ==> !img_needs_barrier(
                    #[trigger] old(self).img_tracked(image, k),
                    idx,
                    memory,
                    start_layout,
                ) {
                assert(forall|k: int|
                    range.spec_contains(k) ==> #[trigger] pre_apply.img_tracked(image, k) == old(self).img_tracked(image, k));
                assert(pre_apply.spec_pending() == old(self).spec_pending());
                assert(self.spec_pending() == pre_apply.spec_pending());
            }
        }
    }

    /// Flushes the pending batch because command `idx` cannot join it: the
    /// accumulated prototype (if any) is emitted in front of the batch, the
    /// batch boundaries are extended, and the batch restarts at `idx`.
    fn flush_pending(&mut self, idx: usize)
        requires
            old(self).wf(),
            old(self).spec_commands().len() >= 1,
            idx < old(self).spec_commands().len(),
        ensures
            final(self).wf(),
            final(self).spec_first_unflushed() == idx,
            final(self).spec_barriers() == flush_boundaries(
                old(self).spec_barriers(),
                old(self).spec_first_unflushed(),
                idx,
            ),
            final(self).spec_emitted() == (if old(self).spec_pending().spec_is_empty() {
                old(self).spec_emitted()
            } else {
                old(self).spec_emitted().push(
                    EmittedBarrier {
                        position: old(self).spec_first_unflushed(),
                        barrier: old(self).spec_pending(),
                    },
                )
            }),
            final(self).spec_pending().spec_is_empty(),
            forall|b: u64, k: int| final(self).spec_pending().buf_at(b, k) is None,
            forall|b: u64, k: int| final(self).spec_pending().img_at(b, k) is None,
            final(self).spec_commands() == old(self).spec_commands(),
            final(self).buf_entries() == old(self).buf_entries(),
            final(self).img_entries() == old(self).img_entries(),
            final(self).spec_buffers() == old(self).spec_buffers(),
            final(self).spec_images() == old(self).spec_images(),
            final(self).spec_buffer_uses() == old(self).spec_buffer_uses(),
            final(self).spec_image_uses() == old(self).spec_image_uses(),
            final(self).spec_state() == old(self).spec_state(),
            final(self).spec_error() == old(self).spec_error(),
            final(self).spec_inner() == old(self).spec_inner(),
    {
        if !self.pending_barrier.is_empty() {
            let mut taken = PendingBarrier::new();
            core::mem::swap(&mut self.pending_barrier, &mut taken);
            self.emitted_barriers.push(
                EmittedBarrier { position: self.first_unflushed, barrier: taken },
            );
        }
        let fu = self.first_unflushed;
        let blen = self.barriers.len();
        if blen == 0 || self.barriers[blen - 1] != fu {
            self.barriers.push(fu);
        }
        self.barriers.push(idx);
        self.first_unflushed = idx;
    }

    /// Records a fill of `range` of `buffer` with the word `data`: an
    /// exclusive transfer-stage write.  A malformed (empty or inverted)
    /// range records nothing and poisons the builder, to be reported at
    /// build time.
    #[verifier::rlimit(100)]
    #[verifier::spinoff_prover]
    pub fn fill_buffer(&mut self, buffer: u64, range: DeviceRange, data: u32)
        requires
            old(self).wf(),
        ensures
            final(self).wf(),
            !range.wf() ==> final(self).spec_error() == (if old(self).spec_error() is Some {
                old(self).spec_error()
            } else {
                Some(
                    SyncCommandBufferBuilderError::MalformedResourceRange {
                        command_name: "fill_buffer",
                        command_param: ParamName::DstBuffer,
                        range,
                    },
                )
            }) && final(self).spec_commands() == old(self).spec_commands() && final(self).spec_buffer_uses() == old(self).spec_buffer_uses() && (forall|b: u64, k: int|
                final(self).buf_tracked(b, k) == old(self).buf_tracked(b, k)) && (forall|
                b: u64,
                k: int,
            |
                final(self).img_tracked(b, k) == old(self).img_tracked(b, k)) && final(self).spec_barriers() == old(self).spec_barriers() && final(self).spec_emitted() == old(self).spec_emitted(),
            range.wf() ==> (final(self).spec_commands() == old(self).spec_commands().push(
                Command::FillBuffer { buffer, range, data },
            )),
            range.wf() ==> (final(self).spec_buffer_uses() == old(self).spec_buffer_uses().push(
                    BufferUse {
                        resource_use: ResourceUse { command_index: (old(self).spec_commands().len() as usize), name: ParamName::DstBuffer },
                        buffer,
                        range,
                        memory: transfer_write_access(),
                    },
                )),
            range.wf() ==> (forall|k: int|
                    range.spec_contains(k) ==> final(self).buf_tracked(buffer, k) == Some(
                        next_buf_state(
                            old(self).buf_tracked(buffer, k),
                            (old(self).spec_commands().len() as usize),
                            ParamName::DstBuffer,
                            transfer_write_access(),
                        ),
                    )),
            range.wf() ==> (forall|b: u64, k: int|
                    !(b == buffer && range.spec_contains(k)) ==> final(self).buf_tracked(b, k)
                        == old(self).buf_tracked(b, k)),
            range.wf() ==> (forall|b: u64, k: int|
                    final(self).img_tracked(b, k) == old(self).img_tracked(b, k)),
            range.wf() ==> (((exists|k: int|
                    range.spec_contains(k) && buf_hazard_unflushed(
                        #[trigger] old(self).buf_tracked(buffer, k),
                        (old(self).spec_commands().len() as usize),
                        transfer_write_access(),
                        old(self).spec_first_unflushed(),
                    )) ==> final(self).spec_first_unflushed() == (old(self).spec_commands().len() as usize) && final(self).spec_barriers()
                    == flush_boundaries(
                    old(self).spec_barriers(),
                    old(self).spec_first_unflushed(),
                    (old(self).spec_commands().len() as usize),
                ) && final(self).spec_emitted() == (if old(self).spec_pending().spec_is_empty() {
                    old(self).spec_emitted()
                } else {
                    old(self).spec_emitted().push(
                        EmittedBarrier {
                            position: old(self).spec_first_unflushed(),
                            barrier: old(self).spec_pending(),
                        },
                    )
                }))),
            range.wf() ==> ((!(exists|k: int|
                    range.spec_contains(k) && buf_hazard_unflushed(
                        #[trigger] old(self).buf_tracked(buffer, k),
                        (old(self).spec_commands().len() as usize),
                        transfer_write_access(),
                        old(self).spec_first_unflushed(),
                    )) ==> final(self).spec_first_unflushed() == old(self).spec_first_unflushed()
                    && final(self).spec_barriers() == old(self).spec_barriers() && final(self).spec_emitted() == old(self).spec_emitted())),
            range.wf() ==> (forall|k: int|
                    #![trigger final(self).spec_pending().buf_at(buffer, k)]
                    range.spec_contains(k) && buf_needs_barrier(
                        old(self).buf_tracked(buffer, k),
                        (old(self).spec_commands().len() as usize),
                        transfer_write_access(),
                    ) ==> buf_barrier_records(
                        final(self).spec_pending().buf_at(buffer, k),
                        old(self).buf_tracked(buffer, k)->0,
                        transfer_write_access(),
                    )),
            range.wf() ==> (forall|b: u64, k: int|
                !(b == buffer && range.spec_contains(k) && buf_needs_barrier(
                    old(self).buf_tracked(b, k),
                    (old(self).spec_commands().len() as usize),
                    transfer_write_access(),
                )) ==> final(self).spec_pending().buf_at(b, k) == (if (exists|k2: int|
                    range.spec_contains(k2) && buf_hazard_unflushed(
                        #[trigger] old(self).buf_tracked(buffer, k2),
                        (old(self).spec_commands().len() as usize),
                        transfer_write_access(),
                        old(self).spec_first_unflushed(),
                    )) {
                    None::<BufferMemoryBarrier>
                } else {
                    old(self).spec_pending().buf_at(b, k)
                })),
            range.wf() ==> (forall|b: u64, k: int|
                final(self).spec_pending().img_at(b, k) == (if (exists|k2: int|
                    range.spec_contains(k2) && buf_hazard_unflushed(
                        #[trigger] old(self).buf_tracked(buffer, k2),
                        (old(self).spec_commands().len() as usize),
                        transfer_write_access(),
                        old(self).spec_first_unflushed(),
                    )) {
                    None::<ImageMemoryBarrier>
                } else {
                    old(self).spec_pending().img_at(b, k)
                })),
            range.wf() ==> ((forall|k: int|
                range.spec_contains(k) ==> !buf_needs_barrier(
                    #[trigger] old(self).buf_tracked(buffer, k),
                    (old(self).spec_commands().len() as usize),
                    transfer_write_access(),
                )) ==> final(self).spec_pending() == old(self).spec_pending()),
            range.wf() ==> (final(self).spec_error() == old(self).spec_error()),
            range.wf() ==> (final(self).spec_state() == old(self).spec_state()),
            range.wf() ==> (final(self).spec_image_uses() == old(self).spec_image_uses()),
    {
        if range.start >= range.end {
            if self.error.is_none() {
                self.error = Some(
                    SyncCommandBufferBuilderError::MalformedResourceRange {
                        command_name: "fill_buffer",
                        command_param: ParamName::DstBuffer,
                        range,
                    },
                );
            }
            return ;
        }
        let idx = self.commands.len();
        self.commands.push(Command::FillBuffer { buffer, range, data });
        proof {
            assert(self.wf());
        }
        let memory = PipelineMemoryAccess {
            stages: PipelineStages { bits: crate::flags::STAGE_TRANSFER },
            access: AccessFlags { bits: crate::flags::ACCESS_TRANSFER_WRITE },
            exclusive: true,
        };
        let ghost pre = *self;
        self.record_buffer_access(idx, ParamName::DstBuffer, buffer, range, memory);
        proof {
            assert(memory == transfer_write_access());
            assert((exists|k: int|
                range.spec_contains(k) && buf_hazard_unflushed(
                    #[trigger] pre.buf_tracked(buffer, k),
                    idx,
                    memory,
                    pre.spec_first_unflushed(),
                )) == (exists|k: int|
                range.spec_contains(k) && buf_hazard_unflushed(
                    #[trigger] old(self).buf_tracked(buffer, k),
                    idx,
                    memory,
                    old(self).spec_first_unflushed(),
                ))) by {
                if exists|k: int|
                    range.spec_contains(k) && buf_hazard_unflushed(
                        #[trigger] pre.buf_tracked(buffer, k),
                        idx,
                        memory,
                        pre.spec_first_unflushed(),
                    ) {
                    let k0 = choose|k: int|
                        range.spec_contains(k) && buf_hazard_unflushed(
                            #[trigger] pre.buf_tracked(buffer, k),
                            idx,
                            memory,
                            pre.spec_first_unflushed(),
                        );
                    assert(buf_hazard_unflushed(
                        old(self).buf_tracked(buffer, k0),
                        idx,
                        memory,
                        old(self).spec_first_unflushed(),
                    ));
                }
                if exists|k: int|
                    range.spec_contains(k) && buf_hazard_unflushed(
                        #[trigger] old(self).buf_tracked(buffer, k),
                        idx,
                        memory,
                        old(self).spec_first_unflushed(),
                    ) {
                    let k0 = choose|k: int|
                        range.spec_contains(k) && buf_hazard_unflushed(
                            #[trigger] old(self).buf_tracked(buffer, k),
                            idx,
                            memory,
                            old(self).spec_first_unflushed(),
                        );
                    assert(buf_hazard_unflushed(
                        pre.buf_tracked(buffer, k0),
                        idx,
                        memory,
                        pre.spec_first_unflushed(),
                    ));
                }
            }
            if forall|k: int|
                range.spec_contains(k) ==> !buf_needs_barrier(
                    #[trigger] old(self).buf_tracked(buffer, k),
                    idx,
                    memory,
                ) {
                assert forall|k: int|
                    range.spec_contains(k) implies !buf_needs_barrier(
                    #[trigger] pre.buf_tracked(buffer, k),
                    idx,
                    memory,
                ) by {
                    assert(pre.buf_tracked(buffer, k) == old(self).buf_tracked(buffer, k));
                }
                assert(self.spec_pending() == pre.spec_pending());
                assert(pre.spec_pending() == old(self).spec_pending());
            }
        }
    }

    /// Records a copy from `src_range` of `src_buffer` (a transfer-stage
    /// read) into `dst_range` of `dst_buffer` (an exclusive transfer-stage
    /// write).  A malformed range records nothing and poisons the builder.
    #[verifier::rlimit(100)]
    #[verifier::spinoff_prover]
    pub fn copy_buffer(
        &mut self,
        src_buffer: u64,
        src_range: DeviceRange,
        dst_buffer: u64,
        dst_range: DeviceRange,
    )
        requires
            old(self).wf(),
        ensures
            final(self).wf(),
            !(src_range.wf() && dst_range.wf()) ==> final(self).spec_commands() == old(self).spec_commands() && final(self).spec_error() is Some && (forall|b: u64, k: int|
                final(self).buf_tracked(b, k) == old(self).buf_tracked(b, k)),
            src_range.wf() && dst_range.wf() ==> (final(self).spec_commands() == old(self).spec_commands().push(
                Command::CopyBuffer { src_buffer, src_range, dst_buffer, dst_range },
            )),
            src_range.wf() && dst_range.wf() ==> (final(self).spec_buffer_uses() == old(self).spec_buffer_uses().push(
                    BufferUse {
                        resource_use: ResourceUse { command_index: (old(self).spec_commands().len() as usize), name: ParamName::SrcBuffer },
                        buffer: src_buffer,
                        range: src_range,
                        memory: transfer_read_access(),
                    },
                ).push(
                    BufferUse {
                        resource_use: ResourceUse { command_index: (old(self).spec_commands().len() as usize), name: ParamName::DstBuffer },
                        buffer: dst_buffer,
                        range: dst_range,
                        memory: transfer_write_access(),
                    },
                )),
            src_range.wf() && dst_range.wf() ==> (forall|b: u64, k: int|
                    #![trigger final(self).buf_tracked(b, k)]
                    final(self).buf_tracked(b, k) == {
                        let mid = if b == src_buffer && src_range.spec_contains(k) {
                            Some(
                                next_buf_state(
                                    old(self).buf_tracked(b, k),
                                    (old(self).spec_commands().len() as usize),
                                    ParamName::SrcBuffer,
                                    transfer_read_access(),
                                ),
                            )
                        } else {
                            old(self).buf_tracked(b, k)
                        };
                        if b == dst_buffer && dst_range.spec_contains(k) {
                            Some(
                                next_buf_state(
                                    mid,
                                    (old(self).spec_commands().len() as usize),
                                    ParamName::DstBuffer,
                                    transfer_write_access(),
                                ),
                            )
                        } else {
                            mid
                        }
                    }),
            src_range.wf() && dst_range.wf() ==> (forall|b: u64, k: int|
                    final(self).img_tracked(b, k) == old(self).img_tracked(b, k)),
            src_range.wf() && dst_range.wf() ==> (final(self).spec_error() == old(self).spec_error()),
            src_range.wf() && dst_range.wf() ==> (final(self).spec_state() == old(self).spec_state()),
            src_range.wf() && dst_range.wf() ==> (final(self).spec_image_uses() == old(self).spec_image_uses()),
            src_range.wf() && dst_range.wf() ==> (((src_buffer != dst_buffer && (forall|k: int|
                    dst_range.spec_contains(k) ==> old(self).buf_tracked(dst_buffer, k) is None))
                    ==> {
                    &&& ((exists|k: int|
                        src_range.spec_contains(k) && buf_hazard_unflushed(
                            #[trigger] old(self).buf_tracked(src_buffer, k),
                            (old(self).spec_commands().len() as usize),
                            transfer_read_access(),
                            old(self).spec_first_unflushed(),
                        )) ==> final(self).spec_first_unflushed() == (old(self).spec_commands().len() as usize) && final(self).spec_barriers() == flush_boundaries(
                        old(self).spec_barriers(),
                        old(self).spec_first_unflushed(),
                        (old(self).spec_commands().len() as usize),
                    ) && final(self).spec_emitted() == (if old(self).spec_pending().spec_is_empty() {
                        old(self).spec_emitted()
                    } else {
                        old(self).spec_emitted().push(
                            EmittedBarrier {
                                position: old(self).spec_first_unflushed(),
                                barrier: old(self).spec_pending(),
                            },
                        )
                    }))
                    &&& (!(exists|k: int|
                        src_range.spec_contains(k) && buf_hazard_unflushed(
                            #[trigger] old(self).buf_tracked(src_buffer, k),
                            (old(self).spec_commands().len() as usize),
                            transfer_read_access(),
                            old(self).spec_first_unflushed(),
                        )) ==> final(self).spec_first_unflushed() == old(self).spec_first_unflushed() && final(self).spec_barriers() == old(self).spec_barriers() && final(self).spec_emitted() == old(self).spec_emitted())
                    &&& forall|k: int|
                        #![trigger final(self).spec_pending().buf_at(src_buffer, k)]
                        src_range.spec_contains(k) && buf_needs_barrier(
                            old(self).buf_tracked(src_buffer, k),
                            (old(self).spec_commands().len() as usize),
                            transfer_read_access(),
                        ) ==> buf_barrier_records(
                            final(self).spec_pending().buf_at(src_buffer, k),
                            old(self).buf_tracked(src_buffer, k)->0,
                            transfer_read_access(),
                        )
                    &&& forall|b: u64, k: int|
                        !(b == src_buffer && src_range.spec_contains(k) && buf_needs_barrier(
                            old(self).buf_tracked(b, k),
                            (old(self).spec_commands().len() as usize),
                            transfer_read_access(),
                        )) ==> final(self).spec_pending().buf_at(b, k) == (if (exists|k2: int|
                            src_range.spec_contains(k2) && buf_hazard_unflushed(
                                #[trigger] old(self).buf_tracked(src_buffer, k2),
                                (old(self).spec_commands().len() as usize),
                                transfer_read_access(),
                                old(self).spec_first_unflushed(),
                            )) {
                            None::<BufferMemoryBarrier>
                        } else {
                            old(self).spec_pending().buf_at(b, k)
                        })
                    &&& forall|b: u64, k: int|
                        final(self).spec_pending().img_at(b, k) == (if (exists|k2: int|
                            src_range.spec_contains(k2) && buf_hazard_unflushed(
                                #[trigger] old(self).buf_tracked(src_buffer, k2),
                                (old(self).spec_commands().len() as usize),
                                transfer_read_access(),
                                old(self).spec_first_unflushed(),
                            )) {
                            None::<ImageMemoryBarrier>
                        } else {
                            old(self).spec_pending().img_at(b, k)
                        })
                    &&& ((forall|k: int|
                        src_range.spec_contains(k) ==> !buf_needs_barrier(
                            #[trigger] old(self).buf_tracked(src_buffer, k),
                            (old(self).spec_commands().len() as usize),
                            transfer_read_access(),
                        )) ==> final(self).spec_pending() == old(self).spec_pending())
                })),
    {
        if src_range.start >= src_range.end {
            if self.error.is_none() {
                self.error = Some(
                    SyncCommandBufferBuilderError::MalformedResourceRange {
                        command_name: "copy_buffer",
                        command_param: ParamName::SrcBuffer,
                        range: src_range,
                    },
                );
            }
            return ;
        }
        if dst_range.start >= dst_range.end {
            if self.error.is_none() {
                self.error = Some(
                    SyncCommandBufferBuilderError::MalformedResourceRange {
                        command_name: "copy_buffer",
                        command_param: ParamName::DstBuffer,
                        range: dst_range,
                    },
                );
            }
            return ;
        }
        let idx = self.commands.len();
        self.commands.push(Command::CopyBuffer { src_buffer, src_range, dst_buffer, dst_range });
        proof {
            assert(self.wf());
        }
        let read = PipelineMemoryAccess {
            stages: PipelineStages { bits: crate::flags::STAGE_TRANSFER },
            access: AccessFlags { bits: crate::flags::ACCESS_TRANSFER_READ },
            exclusive: false,
        };
        let write = PipelineMemoryAccess {
            stages: PipelineStages { bits: crate::flags::STAGE_TRANSFER },
            access: AccessFlags { bits: crate::flags::ACCESS_TRANSFER_WRITE },
            exclusive: true,
        };
        let ghost pre1 = *self;
        self.record_buffer_access(idx, ParamName::SrcBuffer, src_buffer, src_range, read);
        let ghost pre2 = *self;
        self.record_buffer_access(idx, ParamName::DstBuffer, dst_buffer, dst_range, write);
        proof {
            assert(read == transfer_read_access());
            assert(write == transfer_write_access());
            if src_buffer != dst_buffer && (forall|k: int|
                dst_range.spec_contains(k) ==> #[trigger] old(self).buf_tracked(dst_buffer, k)
                    is None) {
                // The destination was untracked and stays untracked through
                // the source record, so the second record neither flushes
                // nor owes barriers.
                assert forall|k: int| dst_range.spec_contains(k) implies pre2.buf_tracked(
                    dst_buffer,
                    k,
                ) is None by {
                    assert(pre2.buf_tracked(dst_buffer, k) == pre1.buf_tracked(dst_buffer, k));
                    assert(pre1.buf_tracked(dst_buffer, k) == old(self).buf_tracked(
                        dst_buffer,
                        k,
                    ));
                }
                assert(!(exists|k: int|
                    dst_range.spec_contains(k) && buf_hazard_unflushed(
                        #[trigger] pre2.buf_tracked(dst_buffer, k),
                        idx,
                        write,
                        pre2.spec_first_unflushed(),
                    )));
                // Bridge the source record's flush condition to the caller's
                // view.
                assert((exists|k: int|
                    src_range.spec_contains(k) && buf_hazard_unflushed(
                        #[trigger] pre1.buf_tracked(src_buffer, k),
                        idx,
                        read,
                        pre1.spec_first_unflushed(),
                    )) == (exists|k: int|
                    src_range.spec_contains(k) && buf_hazard_unflushed(
                        #[trigger] old(self).buf_tracked(src_buffer, k),
                        idx,
                        read,
                        old(self).spec_first_unflushed(),
                    ))) by {
                    if exists|k: int|
                        src_range.spec_contains(k) && buf_hazard_unflushed(
                            #[trigger] pre1.buf_tracked(src_buffer, k),
                            idx,
                            read,
                            pre1.spec_first_unflushed(),
                        ) {
                        let k0 = choose|k: int|
                            src_range.spec_contains(k) && buf_hazard_unflushed(
                                #[trigger] pre1.buf_tracked(src_buffer, k),
                                idx,
                                read,
                                pre1.spec_first_unflushed(),
                            );
                        assert(buf_hazard_unflushed(
                            old(self).buf_tracked(src_buffer, k0),
                            idx,
                            read,
                            old(self).spec_first_unflushed(),
                        ));
                    }
                    if exists|k: int|
                        src_range.spec_contains(k) && buf_hazard_unflushed(
                            #[trigger] old(self).buf_tracked(src_buffer, k),
                            idx,
                            read,
                            old(self).spec_first_unflushed(),
                        ) {
                        let k0 = choose|k: int|
                            src_range.spec_contains(k) && buf_hazard_unflushed(
                                #[trigger] old(self).buf_tracked(src_buffer, k),
                                idx,
                                read,
                                old(self).spec_first_unflushed(),
                            );
                        assert(buf_hazard_unflushed(
                            pre1.buf_tracked(src_buffer, k0),
                            idx,
                            read,
                            pre1.spec_first_unflushed(),
                        ));
                    }
                }
                assert forall|k: int|
                    #![trigger self.spec_pending().buf_at(src_buffer, k)]
                    src_range.spec_contains(k) && buf_needs_barrier(
                        old(self).buf_tracked(src_buffer, k),
                        idx,
                        read,
                    ) implies buf_barrier_records(
                    self.spec_pending().buf_at(src_buffer, k),
                    old(self).buf_tracked(src_buffer, k)->0,
                    read,
                ) by {
                    assert(pre1.buf_tracked(src_buffer, k) == old(self).buf_tracked(
                        src_buffer,
                        k,
                    ));
                    assert(buf_barrier_records(
                        pre2.spec_pending().buf_at(src_buffer, k),
                        old(self).buf_tracked(src_buffer, k)->0,
                        read,
                    ));
                    assert(!(src_buffer == dst_buffer && dst_range.spec_contains(k)
                        && buf_needs_barrier(pre2.buf_tracked(src_buffer, k), idx, write)));
                    assert(self.spec_pending().buf_at(src_buffer, k) == pre2.spec_pending().buf_at(
                        src_buffer,
                        k,
                    ));
                }
                // The destination record owes no barrier, so the prototype
                // after both records is the source record's.
                assert forall|k: int|
                    dst_range.spec_contains(k) implies !buf_needs_barrier(
                    #[trigger] pre2.buf_tracked(dst_buffer, k),
                    idx,
                    write,
                ) by {}
                assert(self.spec_pending() == pre2.spec_pending());
                assert forall|b: u64, k: int|
                    !(b == src_buffer && src_range.spec_contains(k) && buf_needs_barrier(
                        old(self).buf_tracked(b, k),
                        idx,
                        read,
                    )) implies self.spec_pending().buf_at(b, k) == (if (exists|k2: int|
                    src_range.spec_contains(k2) && buf_hazard_unflushed(
                        #[trigger] old(self).buf_tracked(src_buffer, k2),
                        idx,
                        read,
                        old(self).spec_first_unflushed(),
                    )) {
                    None::<BufferMemoryBarrier>
                } else {
                    old(self).spec_pending().buf_at(b, k)
                }) by {
                    if b == src_buffer && src_range.spec_contains(k) {
                        assert(pre1.buf_tracked(b, k) == old(self).buf_tracked(b, k));
                    }
                    assert(pre2.spec_pending().buf_at(b, k) == (if (exists|k2: int|
                        src_range.spec_contains(k2) && buf_hazard_unflushed(
                            #[trigger] pre1.buf_tracked(src_buffer, k2),
                            idx,
                            read,
                            pre1.spec_first_unflushed(),
                        )) {
                        None::<BufferMemoryBarrier>
                    } else {
                        pre1.spec_pending().buf_at(b, k)
                    }));
                }
                assert(forall|b: u64, k: int|
                    #[trigger] self.spec_pending().img_at(b, k) == (if (exists|k2: int|
                        src_range.spec_contains(k2) && buf_hazard_unflushed(
                            #[trigger] old(self).buf_tracked(src_buffer, k2),
                            idx,
                            read,
                            old(self).spec_first_unflushed(),
                        )) {
                        None::<ImageMemoryBarrier>
                    } else {
                        old(self).spec_pending().img_at(b, k)
                    }));
                if forall|k: int|
                    src_range.spec_contains(k) ==> !buf_needs_barrier(
                        #[trigger] old(self).buf_tracked(src_buffer, k),
                        idx,
                        read,
                    ) {
                    assert forall|k: int|
                        src_range.spec_contains(k) implies !buf_needs_barrier(
                        #[trigger] pre1.buf_tracked(src_buffer, k),
                        idx,
                        read,
                    ) by {
                        assert(pre1.buf_tracked(src_buffer, k) == old(self).buf_tracked(
                            src_buffer,
                            k,
                        ));
                    }
                    assert(pre2.spec_pending() == pre1.spec_pending());
                    assert(pre1.spec_pending() == old(self).spec_pending());
                }
            }
        }
    }

    /// Records a copy from a subresource range of `src_image` (read in
    /// transfer-source layout) into one of `dst_image` (written in
    /// transfer-destination layout).  A malformed range records nothing and
    /// poisons the builder.
    #[verifier::rlimit(100)]
    #[verifier::spinoff_prover]
    pub fn copy_image(
        &mut self,
        src_image: u64,
        src_range: DeviceRange,
        dst_image: u64,
        dst_range: DeviceRange,
    )
        requires
            old(self).wf(),
        ensures
            final(self).wf(),
            !(src_range.wf() && dst_range.wf()) ==> final(self).spec_commands() == old(self).spec_commands() && final(self).spec_error() is Some && (forall|b: u64, k: int|
                final(self).img_tracked(b, k) == old(self).img_tracked(b, k)),
            src_range.wf() && dst_range.wf() ==> {
                let idx = old(self).spec_commands().len() as usize;
                &&& final(self).spec_commands() == old(self).spec_commands().push(
                    Command::CopyImage { src_image, src_range, dst_image, dst_range },
                )
                &&& forall|b: u64, k: int|
                    #![trigger final(self).img_tracked(b, k)]
                    final(self).img_tracked(b, k) == {
                        let mid = if b == src_image && src_range.spec_contains(k) {
                            Some(
                                next_img_state(
                                    old(self).img_tracked(b, k),
                                    idx,
                                    ParamName::SrcImage,
                                    transfer_read_access(),
                                    ImageLayout::TransferSrcOptimal,
                                    ImageLayout::TransferSrcOptimal,
                                ),
                            )
                        } else {
                            old(self).img_tracked(b, k)
                        };
                        if b == dst_image && dst_range.spec_contains(k) {
                            Some(
                                next_img_state(
                                    mid,
                                    idx,
                                    ParamName::DstImage,
                                    transfer_write_access(),
                                    ImageLayout::TransferDstOptimal,
                                    ImageLayout::TransferDstOptimal,
                                ),
                            )
                        } else {
                            mid
                        }
                    }
                &&& forall|b: u64, k: int|
                    final(self).buf_tracked(b, k) == old(self).buf_tracked(b, k)
                &&& final(self).spec_error() == old(self).spec_error()
                &&& final(self).spec_state() == old(self).spec_state()
                &&& final(self).spec_buffer_uses() == old(self).spec_buffer_uses()
            },
            // When neither declared range owes a barrier, the prototype is
            // untouched.
            src_range.wf() && dst_range.wf() && src_image != dst_image && (forall|k: int|
                src_range.spec_contains(k) ==> !img_needs_barrier(
                    #[trigger] old(self).img_tracked(src_image, k),
                    old(self).spec_commands().len() as usize,
                    transfer_read_access(),
                    ImageLayout::TransferSrcOptimal,
                )) && (forall|k: int|
                dst_range.spec_contains(k) ==> !img_needs_barrier(
                    #[trigger] old(self).img_tracked(dst_image, k),
                    old(self).spec_commands().len() as usize,
                    transfer_write_access(),
                    ImageLayout::TransferDstOptimal,
                )) ==> final(self).spec_pending() == old(self).spec_pending() && final(self).spec_barriers() == old(self).spec_barriers() && final(self).spec_emitted() == old(self).spec_emitted() && final(self).spec_first_unflushed() == old(self).spec_first_unflushed(),
    {
        if src_range.start >= src_range.end {
            if self.error.is_none() {
                self.error = Some(
                    SyncCommandBufferBuilderError::MalformedResourceRange {
                        command_name: "copy_image",
                        command_param: ParamName::SrcImage,
                        range: src_range,
                    },
                );
            }
            return ;
        }
        if dst_range.start >= dst_range.end {
            if self.error.is_none() {
                self.error = Some(
                    SyncCommandBufferBuilderError::MalformedResourceRange {
                        command_name: "copy_image",
                        command_param: ParamName::DstImage,
                        range: dst_range,
                    },
                );
            }
            return ;
        }
        let idx = self.commands.len();
        self.commands.push(Command::CopyImage { src_image, src_range, dst_image, dst_range });
        proof {
            assert(self.wf());
        }
        let read = PipelineMemoryAccess {
            stages: PipelineStages { bits: crate::flags::STAGE_TRANSFER },
            access: AccessFlags { bits: crate::flags::ACCESS_TRANSFER_READ },
            exclusive: false,
        };
        let write = PipelineMemoryAccess {
            stages: PipelineStages { bits: crate::flags::STAGE_TRANSFER },
            access: AccessFlags { bits: crate::flags::ACCESS_TRANSFER_WRITE },
            exclusive: true,
        };
        let ghost pre1 = *self;
        self.record_image_access(
            idx,
            ParamName::SrcImage,
            src_image,
            src_range,
            read,
            ImageLayout::TransferSrcOptimal,
            ImageLayout::TransferSrcOptimal,
        );
        let ghost pre2 = *self;
        self.record_image_access(
            idx,
            ParamName::DstImage,
            dst_image,
            dst_range,
            write,
            ImageLayout::TransferDstOptimal,
            ImageLayout::TransferDstOptimal,
        );
        proof {
            assert(read == transfer_read_access());
            assert(write == transfer_write_access());
            if src_image != dst_image && (forall|k: int|
                src_range.spec_contains(k) ==> !img_needs_barrier(
                    #[trigger] old(self).img_tracked(src_image, k),
                    idx,
                    read,
                    ImageLayout::TransferSrcOptimal,
                )) && (forall|k: int|
                dst_range.spec_contains(k) ==> !img_needs_barrier(
                    #[trigger] old(self).img_tracked(dst_image, k),
                    idx,
                    write,
                    ImageLayout::TransferDstOptimal,
                )) {
                assert forall|k: int|
                    src_range.spec_contains(k) implies !img_needs_barrier(
                    #[trigger] pre1.img_tracked(src_image, k),
                    idx,
                    read,
                    ImageLayout::TransferSrcOptimal,
                ) by {
                    assert(pre1.img_tracked(src_image, k) == old(self).img_tracked(src_image, k));
                }
                assert(pre2.spec_pending() == pre1.spec_pending());
                assert(pre1.spec_pending() == old(self).spec_pending());
                assert forall|k: int|
                    dst_range.spec_contains(k) implies !img_needs_barrier(
                    #[trigger] pre2.img_tracked(dst_image, k),
                    idx,
                    write,
                    ImageLayout::TransferDstOptimal,
                ) by {
                    assert(pre2.img_tracked(dst_image, k) == pre1.img_tracked(dst_image, k));
                    assert(pre1.img_tracked(dst_image, k) == old(self).img_tracked(dst_image, k));
                }
                assert(self.spec_pending() == pre2.spec_pending());
                assert(!(exists|k: int|
                    src_range.spec_contains(k) && img_hazard_unflushed(
                        #[trigger] pre1.img_tracked(src_image, k),
                        idx,
                        read,
                        ImageLayout::TransferSrcOptimal,
                        pre1.spec_first_unflushed(),
                    )));
                assert(!(exists|k: int|
                    dst_range.spec_contains(k) && img_hazard_unflushed(
                        #[trigger] pre2.img_tracked(dst_image, k),
                        idx,
                        write,
                        ImageLayout::TransferDstOptimal,
                        pre2.spec_first_unflushed(),
                    )));
            }
        }
    }

    /// True if declaration `d`, made by command `idx`, meets a prior
    /// conflicting access at point `k` of its resource.
    pub open spec fn decl_conflicts(&self, d: Resource, k: int, idx: usize) -> bool {
        match d {
            Resource::Buffer { buffer, range, memory } => range.spec_contains(k)
                && buf_needs_barrier(self.buf_tracked(buffer, k), idx, memory),
            Resource::Image { image, subresource_range, memory, start_layout, .. } => subresource_range.spec_contains(
                k,
            ) && img_needs_barrier(self.img_tracked(image, k), idx, memory, start_layout),
        }
    }

    /// Remembers the first malformed declaration, to be reported at build
    /// time.
    pub(crate) fn note_malformed(&mut self, e: SyncCommandBufferBuilderError)
        requires
            old(self).wf(),
        ensures
            final(self).wf(),
            final(self).spec_error() == (if old(self).spec_error() is Some {
                old(self).spec_error()
            } else {
                Some(e)
            }),
            final(self).spec_commands() == old(self).spec_commands(),
            forall|b: u64, k: int| final(self).buf_tracked(b, k) == old(self).buf_tracked(b, k),
            forall|b: u64, k: int| final(self).img_tracked(b, k) == old(self).img_tracked(b, k),
            final(self).spec_barriers() == old(self).spec_barriers(),
            final(self).spec_emitted() == old(self).spec_emitted(),
            final(self).spec_first_unflushed() == old(self).spec_first_unflushed(),
            final(self).spec_pending() == old(self).spec_pending(),
            final(self).spec_state() == old(self).spec_state(),
    {
        if self.error.is_none() {
            self.error = Some(e);
        }
    }

    /// Binds the collected vertex buffers starting at `first_binding` and
    /// records the bind command.  Binding changes only the binding state;
    /// it declares no resource access.
    fn bind_vertex_buffers(&mut self, first_binding: u32, buffers: Vec<u64>)
        requires
            old(self).wf(),
            first_binding as int + buffers@.len() <= u32::MAX as int,
        ensures
            final(self).wf(),
            final(self).spec_commands() == old(self).spec_commands().push(
                Command::BindVertexBuffers { first_binding, buffers },
            ),
            forall|b: int|
                first_binding <= b < first_binding as int + buffers@.len() ==> final(self).spec_state().spec_vertex_buffer(b) == Some(buffers@[b - first_binding]),
            forall|b: int|
                !(first_binding <= b < first_binding as int + buffers@.len()) ==> final(self).spec_state().spec_vertex_buffer(b) == old(self).spec_state().spec_vertex_buffer(
                    b,
                ),
            forall|p: PipelineBindPoint, n: int|
                final(self).spec_state().spec_descriptor_set(p, n) == old(self).spec_state().spec_descriptor_set(p, n),
            forall|b: u64, k: int| final(self).buf_tracked(b, k) == old(self).buf_tracked(b, k),
            forall|b: u64, k: int| final(self).img_tracked(b, k) == old(self).img_tracked(b, k),
            final(self).spec_barriers() == old(self).spec_barriers(),
            final(self).spec_emitted() == old(self).spec_emitted(),
            final(self).spec_first_unflushed() == old(self).spec_first_unflushed(),
            final(self).spec_pending() == old(self).spec_pending(),
            final(self).spec_buffer_uses() == old(self).spec_buffer_uses(),
            final(self).spec_image_uses() == old(self).spec_image_uses(),
            final(self).spec_error() == old(self).spec_error(),
    {
        self.state.bind_vertex_buffers(first_binding, &buffers);
        self.commands.push(Command::BindVertexBuffers { first_binding, buffers });
        proof {
            assert(self.wf());
        }
    }

    /// Binds the collected descriptor sets starting at `first_set` of
    /// `bind_point` and records the bind command.
    fn bind_descriptor_sets(
        &mut self,
        bind_point: PipelineBindPoint,
        pipeline_layout: PipelineLayout,
        first_set: u32,
        sets: Vec<DescriptorSet>,
    )
        requires
            old(self).wf(),
            first_set as int + sets@.len() <= u32::MAX as int,
        ensures
            final(self).wf(),
            final(self).spec_commands().len() == old(self).spec_commands().len() + 1,
            forall|n: int|
                first_set <= n < first_set as int + sets@.len() ==> final(self).spec_state().spec_descriptor_set(bind_point, n) == Some(sets@[n - first_set]),
            forall|n: int|
                !(first_set <= n < first_set as int + sets@.len()) ==> final(self).spec_state().spec_descriptor_set(bind_point, n) == (if old(self).spec_state().spec_bind_disturbs(
                    bind_point,
                    pipeline_layout.set_layouts@,
                    first_set as int,
                ) {
                    None::<DescriptorSet>
                } else {
                    old(self).spec_state().spec_descriptor_set(bind_point, n)
                }),
            forall|n: int|
                final(self).spec_state().spec_descriptor_set(
                    crate::state::other_bind_point(bind_point),
                    n,
                ) == old(self).spec_state().spec_descriptor_set(
                    crate::state::other_bind_point(bind_point),
                    n,
                ),
            forall|b: int|
                final(self).spec_state().spec_vertex_buffer(b) == old(self).spec_state().spec_vertex_buffer(b),
            forall|b: u64, k: int| final(self).buf_tracked(b, k) == old(self).buf_tracked(b, k),
            forall|b: u64, k: int| final(self).img_tracked(b, k) == old(self).img_tracked(b, k),
            final(self).spec_barriers() == old(self).spec_barriers(),
            final(self).spec_emitted() == old(self).spec_emitted(),
            final(self).spec_error() == old(self).spec_error(),
    {
        let layout_handle = pipeline_layout.handle;
        self.state.bind_descriptor_sets(bind_point, pipeline_layout, first_set, &sets);
        self.commands.push(
            Command::BindDescriptorSets {
                bind_point,
                pipeline_layout: layout_handle,
                first_set,
                sets,
            },
        );
        proof {
            assert(self.wf());
        }
    }

    /// Records one batch of secondary command buffers as a single
    /// `execute_commands` command, declaring every resource the secondaries
    /// use.  Declarations are processed in order; hazards between two
    /// declarations of the same command (two secondaries of one batch) merge
    /// without a barrier and are left to the caller.
    fn execute_commands(&mut self, secondary: Vec<u64>, decls: Vec<Resource>)
        requires
            old(self).wf(),
            forall|d: int|
                0 <= d < decls@.len() ==> (match #[trigger] decls@[d] {
                    Resource::Buffer { range, .. } => range.wf(),
                    Resource::Image { subresource_range, .. } => subresource_range.wf(),
                }),
        ensures
            final(self).wf(),
            final(self).spec_commands() == old(self).spec_commands().push(
                Command::ExecuteCommands { secondary },
            ),
            forall|b: u64, k: int|
                #![trigger final(self).buf_tracked(b, k)]
                final(self).buf_tracked(b, k) == decls_buf_tracked(
                    decls@,
                    old(self).buf_tracked(b, k),
                    b,
                    k,
                    old(self).spec_commands().len() as usize,
                ),
            forall|b: u64, k: int|
                #![trigger final(self).img_tracked(b, k)]
                final(self).img_tracked(b, k) == decls_img_tracked(
                    decls@,
                    old(self).img_tracked(b, k),
                    b,
                    k,
                    old(self).spec_commands().len() as usize,
                ),
            final(self).spec_state() == old(self).spec_state(),
            final(self).spec_error() == old(self).spec_error(),
            final(self).spec_first_unflushed() <= old(self).spec_commands().len(),
            // A batch whose declarations meet no prior conflicting access
            // leaves the stream untouched: no boundary, no emission, and the
            // prototype as it was.
            (forall|d: int, k: int|
                0 <= d < decls@.len() ==> !(#[trigger] old(self).decl_conflicts(
                    decls@[d],
                    k,
                    old(self).spec_commands().len() as usize,
                ))) ==> final(self).spec_barriers() == old(self).spec_barriers() && final(self).spec_emitted() == old(self).spec_emitted() && final(self).spec_first_unflushed()
                == old(self).spec_first_unflushed() && final(self).spec_pending() == old(self).spec_pending(),
            // A batch with exactly one buffer declaration flushes and owes
            // barriers exactly as one recorded access does.
            forall|buffer: u64, range: DeviceRange, memory: PipelineMemoryAccess|
                decls@.len() == 1 && decls@[0] == (Resource::Buffer { buffer, range, memory })
                    ==> {
                    let idx = old(self).spec_commands().len() as usize;
                    &&& ((exists|k: int|
                        range.spec_contains(k) && buf_hazard_unflushed(
                            #[trigger] old(self).buf_tracked(buffer, k),
                            idx,
                            memory,
                            old(self).spec_first_unflushed(),
                        )) ==> final(self).spec_first_unflushed() == idx && final(self).spec_barriers() == flush_boundaries(
                        old(self).spec_barriers(),
                        old(self).spec_first_unflushed(),
                        idx,
                    ) && final(self).spec_emitted() == (if old(self).spec_pending().spec_is_empty() {
                        old(self).spec_emitted()
                    } else {
                        old(self).spec_emitted().push(
                            EmittedBarrier {
                                position: old(self).spec_first_unflushed(),
                                barrier: old(self).spec_pending(),
                            },
                        )
                    }))
                    &&& (!(exists|k: int|
                        range.spec_contains(k) && buf_hazard_unflushed(
                            #[trigger] old(self).buf_tracked(buffer, k),
                            idx,
                            memory,
                            old(self).spec_first_unflushed(),
                        )) ==> final(self).spec_first_unflushed() == old(self).spec_first_unflushed() && final(self).spec_barriers() == old(self).spec_barriers() && final(self).spec_emitted() == old(self).spec_emitted())
                    &&& forall|k: int|
                        #![trigger final(self).spec_pending().buf_at(buffer, k)]
                        range.spec_contains(k) && buf_needs_barrier(
                            old(self).buf_tracked(buffer, k),
                            idx,
                            memory,
                        ) ==> buf_barrier_records(
                            final(self).spec_pending().buf_at(buffer, k),
                            old(self).buf_tracked(buffer, k)->0,
                            memory,
                        )
                },
    {
        let idx = self.commands.len();
        self.commands.push(Command::ExecuteCommands { secondary });
        proof {
            assert(self.wf());
        }
        let ghost start = *self;
        let mut d: usize = 0;
        while d < decls.len()
            invariant
                self.wf(),
                d <= decls@.len(),
                idx as int == start.spec_commands().len() - 1,
                self.spec_commands() == start.spec_commands(),
                self.spec_first_unflushed() <= idx,
                (forall|d2: int, k: int|
                    0 <= d2 < decls@.len() ==> !(#[trigger] start.decl_conflicts(
                        decls@[d2],
                        k,
                        idx,
                    ))) ==> self.spec_barriers() == start.spec_barriers() && self.spec_emitted()
                    == start.spec_emitted() && self.spec_first_unflushed()
                    == start.spec_first_unflushed() && self.spec_pending()
                    == start.spec_pending(),
                d == 0 ==> *self == start,
                forall|buffer: u64, range: DeviceRange, memory: PipelineMemoryAccess|
                    d == 1 && decls@.len() == 1 && decls@[0] == (Resource::Buffer {
                        buffer,
                        range,
                        memory,
                    }) ==> {
                        &&& ((exists|k: int|
                            range.spec_contains(k) && buf_hazard_unflushed(
                                #[trigger] start.buf_tracked(buffer, k),
                                idx,
                                memory,
                                start.spec_first_unflushed(),
                            )) ==> self.spec_first_unflushed() == idx && self.spec_barriers()
                            == flush_boundaries(
                            start.spec_barriers(),
                            start.spec_first_unflushed(),
                            idx,
                        ) && self.spec_emitted() == (if start.spec_pending().spec_is_empty() {
                            start.spec_emitted()
                        } else {
                            start.spec_emitted().push(
                                EmittedBarrier {
                                    position: start.spec_first_unflushed(),
                                    barrier: start.spec_pending(),
                                },
                            )
                        }))
                        &&& (!(exists|k: int|
                            range.spec_contains(k) && buf_hazard_unflushed(
                                #[trigger] start.buf_tracked(buffer, k),
                                idx,
                                memory,
                                start.spec_first_unflushed(),
                            )) ==> self.spec_first_unflushed() == start.spec_first_unflushed()
                            && self.spec_barriers() == start.spec_barriers()
                            && self.spec_emitted() == start.spec_emitted())
                        &&& forall|k: int|
                            #![trigger self.spec_pending().buf_at(buffer, k)]
                            range.spec_contains(k) && buf_needs_barrier(
                                start.buf_tracked(buffer, k),
                                idx,
                                memory,
                            ) ==> buf_barrier_records(
                                self.spec_pending().buf_at(buffer, k),
                                start.buf_tracked(buffer, k)->0,
                                memory,
                            )
                    },
                forall|d2: int|
                    0 <= d2 < decls@.len() ==> (match #[trigger] decls@[d2] {
                        Resource::Buffer { range, .. } => range.wf(),
                        Resource::Image { subresource_range, .. } => subresource_range.wf(),
                    }),
                forall|b: u64, k: int|
                    #![trigger self.buf_tracked(b, k)]
                    self.buf_tracked(b, k) == decls_buf_tracked(
                        decls@.take(d as int),
                        start.buf_tracked(b, k),
                        b,
                        k,
                        idx,
                    ),
                forall|b: u64, k: int|
                    #![trigger self.img_tracked(b, k)]
                    self.img_tracked(b, k) == decls_img_tracked(
                        decls@.take(d as int),
                        start.img_tracked(b, k),
                        b,
                        k,
                        idx,
                    ),
                self.spec_state() == start.spec_state(),
                self.spec_error() == start.spec_error(),
                self.spec_inner() == start.spec_inner(),
            decreases decls@.len() - d,
        {
            let ghost before = *self;
            proof {
                assert(decls@.take(d as int + 1).drop_last() =~= decls@.take(d as int));
                assert(decls@.take(d as int + 1).last() == decls@[d as int]);
            }
            match decls[d] {
                Resource::Buffer { buffer, range, memory } => {
                    self.record_buffer_access(
                        idx,
                        ParamName::SecondaryCommandBuffer,
                        buffer,
                        range,
                        memory,
                    );
                    proof {
                        if forall|d2: int, k: int|
                            0 <= d2 < decls@.len() ==> !(#[trigger] start.decl_conflicts(
                                decls@[d2],
                                k,
                                idx,
                            )) {
                            assert forall|k: int|
                                range.spec_contains(k) implies !buf_needs_barrier(
                                #[trigger] before.buf_tracked(buffer, k),
                                idx,
                                memory,
                            ) by {
                                lemma_decls_buf_tracked_shape(
                                    decls@.take(d as int),
                                    start.buf_tracked(buffer, k),
                                    buffer,
                                    k,
                                    idx,
                                );
                                assert(!start.decl_conflicts(decls@[d as int], k, idx));
                            }
                            assert(self.spec_pending() == before.spec_pending());
                            assert(!(exists|k: int|
                                range.spec_contains(k) && buf_hazard_unflushed(
                                    #[trigger] before.buf_tracked(buffer, k),
                                    idx,
                                    memory,
                                    before.spec_first_unflushed(),
                                )));
                        }
                    }
                },
                Resource::Image { image, subresource_range, memory, start_layout, end_layout } => {
                    self.record_image_access(
                        idx,
                        ParamName::SecondaryCommandBuffer,
                        image,
                        subresource_range,
                        memory,
                        start_layout,
                        end_layout,
                    );
                    proof {
                        if forall|d2: int, k: int|
                            0 <= d2 < decls@.len() ==> !(#[trigger] start.decl_conflicts(
                                decls@[d2],
                                k,
                                idx,
                            )) {
                            assert forall|k: int|
                                subresource_range.spec_contains(k) implies !img_needs_barrier(
                                #[trigger] before.img_tracked(image, k),
                                idx,
                                memory,
                                start_layout,
                            ) by {
                                lemma_decls_img_tracked_shape(
                                    decls@.take(d as int),
                                    start.img_tracked(image, k),
                                    image,
                                    k,
                                    idx,
                                );
                                assert(!start.decl_conflicts(decls@[d as int], k, idx));
                            }
                            assert(self.spec_pending() == before.spec_pending());
                            assert(!(exists|k: int|
                                subresource_range.spec_contains(k) && img_hazard_unflushed(
                                    #[trigger] before.img_tracked(image, k),
                                    idx,
                                    memory,
                                    start_layout,
                                    before.spec_first_unflushed(),
                                )));
                        }
                    }
                },
            }
            d = d + 1;
        }
        proof {
            assert(decls@.take(decls@.len() as int) =~= decls@);
            if forall|d2: int, k: int|
                0 <= d2 < decls@.len() ==> !(#[trigger] old(self).decl_conflicts(
                    decls@[d2],
                    k,
                    old(self).spec_commands().len() as usize,
                )) {
                assert forall|d2: int, k: int|
                    0 <= d2 < decls@.len() implies !(#[trigger] start.decl_conflicts(
                    decls@[d2],
                    k,
                    idx,
                )) by {
                    assert(!old(self).decl_conflicts(decls@[d2], k, idx));
                    match decls@[d2] {
                        Resource::Buffer { buffer, range, memory } => {
                            assert(start.buf_tracked(buffer, k) == old(self).buf_tracked(
                                buffer,
                                k,
                            ));
                        },
                        Resource::Image { image, subresource_range, memory, start_layout, .. } => {
                            assert(start.img_tracked(image, k) == old(self).img_tracked(image, k));
                        },
                    }
                }
                assert(self.spec_pending() == start.spec_pending());
                assert(start.spec_pending() == old(self).spec_pending());
            }
            assert(start.spec_barriers() == old(self).spec_barriers());
            assert(start.spec_emitted() == old(self).spec_emitted());
            assert(start.spec_first_unflushed() == old(self).spec_first_unflushed());
            assert(start.spec_pending() == old(self).spec_pending());
            assert(forall|b: u64, k: int|
                #[trigger] start.buf_tracked(b, k) == old(self).buf_tracked(b, k));
            if decls@.len() == 1 {
                match decls@[0] {
                    Resource::Buffer { buffer, range, memory } => {
                        assert((exists|k: int|
                            range.spec_contains(k) && buf_hazard_unflushed(
                                #[trigger] start.buf_tracked(buffer, k),
                                idx,
                                memory,
                                start.spec_first_unflushed(),
                            )) == (exists|k: int|
                            range.spec_contains(k) && buf_hazard_unflushed(
                                #[trigger] old(self).buf_tracked(buffer, k),
                                idx,
                                memory,
                                old(self).spec_first_unflushed(),
                            ))) by {
                            if exists|k: int|
                                range.spec_contains(k) && buf_hazard_unflushed(
                                    #[trigger] start.buf_tracked(buffer, k),
                                    idx,
                                    memory,
                                    start.spec_first_unflushed(),
                                ) {
                                let k0 = choose|k: int|
                                    range.spec_contains(k) && buf_hazard_unflushed(
                                        #[trigger] start.buf_tracked(buffer, k),
                                        idx,
                                        memory,
                                        start.spec_first_unflushed(),
                                    );
                                assert(buf_hazard_unflushed(
                                    old(self).buf_tracked(buffer, k0),
                                    idx,
                                    memory,
                                    old(self).spec_first_unflushed(),
                                ));
                            }
                            if exists|k: int|
                                range.spec_contains(k) && buf_hazard_unflushed(
                                    #[trigger] old(self).buf_tracked(buffer, k),
                                    idx,
                                    memory,
                                    old(self).spec_first_unflushed(),
                                ) {
                                let k0 = choose|k: int|
                                    range.spec_contains(k) && buf_hazard_unflushed(
                                        #[trigger] old(self).buf_tracked(buffer, k),
                                        idx,
                                        memory,
                                        old(self).spec_first_unflushed(),
                                    );
                                assert(buf_hazard_unflushed(
                                    start.buf_tracked(buffer, k0),
                                    idx,
                                    memory,
                                    start.spec_first_unflushed(),
                                ));
                            }
                        }
                        assert forall|k: int|
                            range.spec_contains(k) && buf_needs_barrier(
                                old(self).buf_tracked(buffer, k),
                                idx,
                                memory,
                            ) implies buf_barrier_records(
                            self.spec_pending().buf_at(buffer, k),
                            old(self).buf_tracked(buffer, k)->0,
                            memory,
                        ) by {
                            assert(start.buf_tracked(buffer, k) == old(self).buf_tracked(
                                buffer,
                                k,
                            ));
                        }
                    },
                    Resource::Image { .. } => {},
                }
            }
        }
    }

    /// Finalizes the build: flushes any remaining pending barrier, freezes
    /// the per-resource state, and returns the immutable command buffer.
    /// Fails if any command declared a malformed resource range.
    pub fn build(self) -> (r: Result<SyncCommandBuffer, SyncCommandBufferBuilderError>)
        requires
            self.wf(),
        ensures
            self.spec_error() is Some ==> r == Err::<SyncCommandBuffer, SyncCommandBufferBuilderError>(
                self.spec_error()->0,
            ),
            self.spec_error() is None ==> r is Ok && {
                let cb = r->Ok_0;
                &&& cb.wf()
                &&& cb.spec_inner() == self.spec_inner()
                &&& cb.spec_commands() == self.spec_commands()
                &&& cb.spec_barriers() == self.spec_barriers()
                &&& cb.spec_emitted() == (if self.spec_pending().spec_is_empty() {
                    self.spec_emitted()
                } else {
                    self.spec_emitted().push(
                        EmittedBarrier {
                            position: self.spec_first_unflushed(),
                            barrier: self.spec_pending(),
                        },
                    )
                })
                &&& cb.buf_entries() == self.buf_entries()
                &&& cb.img_entries() == self.img_entries()
                &&& cb.spec_buffers() == self.spec_buffers()
                &&& cb.spec_images() == self.spec_images()
                &&& cb.spec_buffer_uses() == self.spec_buffer_uses()
                &&& cb.spec_image_uses() == self.spec_image_uses()
                &&& (forall|b: u64, k: int| cb.buf_access(b, k) == self.buf_tracked(b, k))
                &&& (forall|b: u64, k: int| cb.img_access(b, k) == self.img_tracked(b, k))
            },
    {
        let SyncCommandBufferBuilder {
            inner,
            commands,
            barriers,
            first_unflushed,
            pending_barrier,
            mut emitted_barriers,
            buffers2,
            images2,
            buffers,
            images,
            buffer_uses,
            image_uses,
            state,
            error,
        } = self;
        if let Some(e) = error {
            return Err(e);
        }
        if !pending_barrier.is_empty() {
            emitted_barriers.push(
                EmittedBarrier { position: first_unflushed, barrier: pending_barrier },
            );
        }
        let cb = SyncCommandBuffer::assemble(
            inner,
            commands,
            barriers,
            emitted_barriers,
            buffers2,
            images2,
            buffers,
            images,
            buffer_uses,
            image_uses,
        );
        proof {
            assert forall|b: u64, k: int| cb.buf_access(b, k) == self.buf_tracked(b, k) by {
                if self.spec_has_buffer(b) {
                    let i = self.buf_idx(b);
                    self.lemma_buf_lookup(i);
                    cb.lemma_buf_lookup(i);
                } else {
                    assert(!cb.spec_has_buffer(b));
                }
            }
            assert forall|b: u64, k: int| cb.img_access(b, k) == self.img_tracked(b, k) by {
                if self.spec_has_image(b) {
                    let i = self.img_idx(b);
                    self.lemma_img_lookup(i);
                    cb.lemma_img_lookup(i);
                } else {
                    assert(!cb.spec_has_image(b));
                }
            }
            assert(cb.wf());
        }
        Ok(cb)
    }
}

/// Collector for one `bind_vertex_buffers` command: add the buffers, then
/// submit with the first binding slot.
pub struct SyncCommandBufferBuilderBindVertexBuffer {
    buffers: Vec<u64>,
}

impl SyncCommandBufferBuilderBindVertexBuffer {
    /// The collected buffers, in order.
    pub closed spec fn spec_buffers(&self) -> Seq<u64> {
        self.buffers@
    }

    /// An empty collector.
    pub fn new() -> (r: Self)
        ensures
            r.spec_buffers().len() == 0,
    {
        SyncCommandBufferBuilderBindVertexBuffer { buffers: Vec::new() }
    }

    /// Adds one vertex buffer to the batch.
    pub fn add(&mut self, buffer: u64)
        ensures
            final(self).spec_buffers() == old(self).spec_buffers().push(buffer),
    {
        self.buffers.push(buffer);
    }

    /// Records the bind: the collected buffers take the consecutive binding
    /// slots starting at `first_binding`; other slots are untouched.
    pub fn submit(self, builder: &mut SyncCommandBufferBuilder, first_binding: u32)
        requires
            old(builder).wf(),
            first_binding as int + self.spec_buffers().len() <= u32::MAX as int,
        ensures
            final(builder).wf(),
            final(builder).spec_commands() == old(builder).spec_commands().push(
                Command::BindVertexBuffers { first_binding, buffers: self.spec_vec() },
            ),
            forall|b: int|
                first_binding <= b < first_binding as int + self.spec_buffers().len() ==> final(builder).spec_state().spec_vertex_buffer(b) == Some(self.spec_buffers()[b - first_binding]),
            forall|b: int|
                !(first_binding <= b < first_binding as int + self.spec_buffers().len()) ==> final(builder).spec_state().spec_vertex_buffer(b) == old(builder).spec_state().spec_vertex_buffer(
                    b,
                ),
            forall|p: PipelineBindPoint, n: int|
                final(builder).spec_state().spec_descriptor_set(p, n) == old(builder).spec_state().spec_descriptor_set(p, n),
            forall|b: u64, k: int|
                final(builder).buf_tracked(b, k) == old(builder).buf_tracked(b, k),
            forall|b: u64, k: int|
                final(builder).img_tracked(b, k) == old(builder).img_tracked(b, k),
            final(builder).spec_barriers() == old(builder).spec_barriers(),
            final(builder).spec_emitted() == old(builder).spec_emitted(),
            final(builder).spec_error() == old(builder).spec_error(),
    {
        builder.bind_vertex_buffers(first_binding, self.buffers);
    }

    /// The collected buffers as the vector stored in the recorded command.
    pub closed spec fn spec_vec(&self) -> Vec<u64> {
        self.buffers
    }
}

/// Collector for one `bind_descriptor_sets` command.
pub struct SyncCommandBufferBuilderBindDescriptorSets {
    sets: Vec<DescriptorSet>,
}

impl SyncCommandBufferBuilderBindDescriptorSets {
    /// The collected sets, in order.
    pub closed spec fn spec_sets(&self) -> Seq<DescriptorSet> {
        self.sets@
    }

    /// An empty collector.
    pub fn new() -> (r: Self)
        ensures
            r.spec_sets().len() == 0,
    {
        SyncCommandBufferBuilderBindDescriptorSets { sets: Vec::new() }
    }

    /// Adds one descriptor set to the batch.
    pub fn add(&mut self, set: DescriptorSet)
        ensures
            final(self).spec_sets() == old(self).spec_sets().push(set),
    {
        self.sets.push(set);
    }

    /// Records the bind: the collected sets take the consecutive set slots
    /// of `bind_point` starting at `first_set`; an incompatible pipeline
    /// layout disturbs the previously bound sets there.
    pub fn submit(
        self,
        builder: &mut SyncCommandBufferBuilder,
        bind_point: PipelineBindPoint,
        pipeline_layout: PipelineLayout,
        first_set: u32,
    )
        requires
            old(builder).wf(),
            first_set as int + self.spec_sets().len() <= u32::MAX as int,
        ensures
            final(builder).wf(),
            final(builder).spec_commands().len() == old(builder).spec_commands().len() + 1,
            forall|n: int|
                first_set <= n < first_set as int + self.spec_sets().len() ==> final(builder).spec_state().spec_descriptor_set(bind_point, n) == Some(
                    self.spec_sets()[n - first_set],
                ),
            forall|n: int|
                !(first_set <= n < first_set as int + self.spec_sets().len()) ==> final(builder).spec_state().spec_descriptor_set(bind_point, n) == (if old(builder).spec_state().spec_bind_disturbs(
                    bind_point,
                    pipeline_layout.set_layouts@,
                    first_set as int,
                ) {
                    None::<DescriptorSet>
                } else {
                    old(builder).spec_state().spec_descriptor_set(bind_point, n)
                }),
            forall|n: int|
                final(builder).spec_state().spec_descriptor_set(
                    crate::state::other_bind_point(bind_point),
                    n,
                ) == old(builder).spec_state().spec_descriptor_set(
                    crate::state::other_bind_point(bind_point),
                    n,
                ),
            forall|b: int|
                final(builder).spec_state().spec_vertex_buffer(b) == old(builder).spec_state().spec_vertex_buffer(b),
            forall|b: u64, k: int|
                final(builder).buf_tracked(b, k) == old(builder).buf_tracked(b, k),
            forall|b: u64, k: int|
                final(builder).img_tracked(b, k) == old(builder).img_tracked(b, k),
            final(builder).spec_barriers() == old(builder).spec_barriers(),
            final(builder).spec_emitted() == old(builder).spec_emitted(),
            final(builder).spec_error() == old(builder).spec_error(),
    {
        builder.bind_descriptor_sets(bind_point, pipeline_layout, first_set, self.sets);
    }
}

/// Collector for one `execute_commands` batch of secondary command buffers.
pub struct SyncCommandBufferBuilderExecuteCommands {
    secondary: Vec<u64>,
    decls: Vec<Resource>,
}

impl SyncCommandBufferBuilderExecuteCommands {
    /// The native handles of the collected secondaries.
    pub closed spec fn spec_secondary(&self) -> Seq<u64> {
        self.secondary@
    }

    /// The resource declarations the batch will make, in order.
    pub closed spec fn spec_decls(&self) -> Seq<Resource> {
        self.decls@
    }

    /// An empty batch.
    pub fn new() -> (r: Self)
        ensures
            r.spec_secondary().len() == 0,
            r.spec_decls().len() == 0,
    {
        SyncCommandBufferBuilderExecuteCommands { secondary: Vec::new(), decls: Vec::new() }
    }

    /// Adds one secondary command buffer: its handle joins the batch and its
    /// tracked resources, with their accumulated accesses, are declared.
    pub fn add(&mut self, cb: &SyncCommandBuffer)
        ensures
            final(self).spec_secondary() == old(self).spec_secondary().push(cb.spec_inner()),
            final(self).spec_decls().len() == old(self).spec_decls().len()
                + cb.spec_buffers().len() + cb.spec_images().len(),
            forall|d: int|
                0 <= d < old(self).spec_decls().len() ==> #[trigger] final(self).spec_decls()[d]
                    == old(self).spec_decls()[d],
            forall|d: int|
                0 <= d < cb.spec_buffers().len() ==> #[trigger] final(self).spec_decls()[old(self).spec_decls().len() + d] == (Resource::Buffer {
                    buffer: cb.spec_buffers()[d].0,
                    range: cb.spec_buffers()[d].1,
                    memory: cb.spec_buffers()[d].2,
                }),
            forall|d: int|
                0 <= d < cb.spec_images().len() ==> #[trigger] final(self).spec_decls()[old(self).spec_decls().len() + cb.spec_buffers().len() + d] == (Resource::Image {
                    image: cb.spec_images()[d].0,
                    subresource_range: cb.spec_images()[d].1,
                    memory: cb.spec_images()[d].2,
                    start_layout: cb.spec_images()[d].3,
                    end_layout: cb.spec_images()[d].4,
                }),
    {
        self.secondary.push(cb.inner());
        let mut i: usize = 0;
        let n = cb.num_buffers();
        while i < n
            invariant
                n == cb.spec_buffers().len(),
                i <= n,
                self.secondary@ == old(self).secondary@.push(cb.spec_inner()),
                self.decls@.len() == old(self).spec_decls().len() + i,
                forall|d: int|
                    0 <= d < old(self).spec_decls().len() ==> #[trigger] self.decls@[d] == old(self).spec_decls()[d],
                forall|d: int|
                    0 <= d < i ==> #[trigger] self.decls@[old(self).spec_decls().len() + d] == (
                    Resource::Buffer {
                        buffer: cb.spec_buffers()[d].0,
                        range: cb.spec_buffers()[d].1,
                        memory: cb.spec_buffers()[d].2,
                    }),
            decreases n - i,
        {
            let entry = cb.buffer(i);
            match entry {
                Some((buffer, range, memory)) => {
                    self.decls.push(Resource::Buffer { buffer, range, memory });
                },
                None => {
                    proof {
                        assert(false);
                    }
                },
            }
            i = i + 1;
        }
        let ghost after_bufs = self.decls@;
        let mut j: usize = 0;
        let m = cb.num_images();
        while j < m
            invariant
                m == cb.spec_images().len(),
                j <= m,
                self.secondary@ == old(self).secondary@.push(cb.spec_inner()),
                self.decls@.len() == after_bufs.len() + j,
                forall|d: int| 0 <= d < after_bufs.len() ==> #[trigger] self.decls@[d] == after_bufs[d],
                forall|d: int|
                    0 <= d < j ==> #[trigger] self.decls@[after_bufs.len() + d] == (
                    Resource::Image {
                        image: cb.spec_images()[d].0,
                        subresource_range: cb.spec_images()[d].1,
                        memory: cb.spec_images()[d].2,
                        start_layout: cb.spec_images()[d].3,
                        end_layout: cb.spec_images()[d].4,
                    }),
            decreases m - j,
        {
            let entry = cb.image(j);
            match entry {
                Some((image, subresource_range, memory, start_layout, end_layout)) => {
                    self.decls.push(
                        Resource::Image {
                            image,
                            subresource_range,
                            memory,
                            start_layout,
                            end_layout,
                        },
                    );
                },
                None => {
                    proof {
                        assert(false);
                    }
                },
            }
            j = j + 1;
        }
    }

    /// Records the batch as one `execute_commands` command, declaring every
    /// collected resource in order.  A malformed declared range records
    /// nothing and poisons the builder.
    pub fn submit(self, builder: &mut SyncCommandBufferBuilder)
        requires
            old(builder).wf(),
        ensures
            final(builder).wf(),
            (forall|d: int|
                0 <= d < self.spec_decls().len() ==> (match #[trigger] self.spec_decls()[d] {
                    Resource::Buffer { range, .. } => range.wf(),
                    Resource::Image { subresource_range, .. } => subresource_range.wf(),
                })) ==> {
                &&& final(builder).spec_commands() == old(builder).spec_commands().push(
                    Command::ExecuteCommands { secondary: self.spec_sec_vec() },
                )
                &&& forall|b: u64, k: int|
                    #![trigger final(builder).buf_tracked(b, k)]
                    final(builder).buf_tracked(b, k) == decls_buf_tracked(
                        self.spec_decls(),
                        old(builder).buf_tracked(b, k),
                        b,
                        k,
                        old(builder).spec_commands().len() as usize,
                    )
                &&& forall|b: u64, k: int|
                    #![trigger final(builder).img_tracked(b, k)]
                    final(builder).img_tracked(b, k) == decls_img_tracked(
                        self.spec_decls(),
                        old(builder).img_tracked(b, k),
                        b,
                        k,
                        old(builder).spec_commands().len() as usize,
                    )
                &&& final(builder).spec_error() == old(builder).spec_error()
            },
            (forall|d: int, k: int|
                0 <= d < self.spec_decls().len() ==> !(#[trigger] old(builder).decl_conflicts(
                    self.spec_decls()[d],
                    k,
                    old(builder).spec_commands().len() as usize,
                ))) ==> final(builder).spec_barriers() == old(builder).spec_barriers() && final(builder).spec_emitted() == old(builder).spec_emitted() && final(builder).spec_first_unflushed() == old(builder).spec_first_unflushed() && final(builder).spec_pending() == old(builder).spec_pending(),
            forall|buffer: u64, range: DeviceRange, memory: PipelineMemoryAccess|
                    self.spec_decls().len() == 1 && self.spec_decls()[0] == (Resource::Buffer {
                        buffer,
                        range,
                        memory,
                    }) ==> {
                        let idx = old(builder).spec_commands().len() as usize;
                        &&& ((exists|k: int|
                            range.spec_contains(k) && buf_hazard_unflushed(
                                #[trigger] old(builder).buf_tracked(buffer, k),
                                idx,
                                memory,
                                old(builder).spec_first_unflushed(),
                            )) ==> final(builder).spec_first_unflushed() == idx && final(builder).spec_barriers() == flush_boundaries(
                            old(builder).spec_barriers(),
                            old(builder).spec_first_unflushed(),
                            idx,
                        ) && final(builder).spec_emitted() == (if old(builder).spec_pending().spec_is_empty() {
                            old(builder).spec_emitted()
                        } else {
                            old(builder).spec_emitted().push(
                                EmittedBarrier {
                                    position: old(builder).spec_first_unflushed(),
                                    barrier: old(builder).spec_pending(),
                                },
                            )
                        }))
                        &&& (!(exists|k: int|
                            range.spec_contains(k) && buf_hazard_unflushed(
                                #[trigger] old(builder).buf_tracked(buffer, k),
                                idx,
                                memory,
                                old(builder).spec_first_unflushed(),
                            )) ==> final(builder).spec_first_unflushed() == old(builder).spec_first_unflushed() && final(builder).spec_barriers() == old(builder).spec_barriers() && final(builder).spec_emitted() == old(builder).spec_emitted())
                        &&& forall|k: int|
                            #![trigger final(builder).spec_pending().buf_at(buffer, k)]
                            range.spec_contains(k) && buf_needs_barrier(
                                old(builder).buf_tracked(buffer, k),
                                idx,
                                memory,
                            ) ==> buf_barrier_records(
                                final(builder).spec_pending().buf_at(buffer, k),
                                old(builder).buf_tracked(buffer, k)->0,
                                memory,
                            )
                    },
    {
        let mut d: usize = 0;
        while d < self.decls.len()
            invariant
                d <= self.decls@.len(),
                *builder == *old(builder),
                old(builder).wf(),
                forall|d2: int|
                    0 <= d2 < d ==> (match #[trigger] self.decls@[d2] {
                        Resource::Buffer { range, .. } => range.wf(),
                        Resource::Image { subresource_range, .. } => subresource_range.wf(),
                    }),
            decreases self.decls@.len() - d,
        {
            let ok = match self.decls[d] {
                Resource::Buffer { range, .. } => range.start < range.end,
                Resource::Image { subresource_range, .. } => subresource_range.start
                    < subresource_range.end,
            };
            if !ok {
                builder.note_malformed(
                    SyncCommandBufferBuilderError::MalformedResourceRange {
                        command_name: "execute_commands",
                        command_param: ParamName::SecondaryCommandBuffer,
                        range: match self.decls[d] {
                            Resource::Buffer { range, .. } => range,
                            Resource::Image { subresource_range, .. } => subresource_range,
                        },
                    },
                );
                return ;
            }
            d = d + 1;
        }
        builder.execute_commands(self.secondary, self.decls);
    }

    /// The collected secondary handles as the vector stored in the recorded
    /// command.
    pub closed spec fn spec_sec_vec(&self) -> Vec<u64> {
        self.secondary
    }
}

} // verus!