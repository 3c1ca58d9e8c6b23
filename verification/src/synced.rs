//! The finalized, immutable command buffer.
//!
//! A [`SyncCommandBuffer`] owns the frozen per-resource state maps produced
//! by recording, the list of recorded commands, the barriers that were
//! flushed into the native stream, and the per-resource enumeration used when
//! a primary command buffer executes this buffer as a secondary.  It offers
//! the submission-time protocol: an all-or-nothing `lock_submit` against the
//! live [`ResourceStates`], the matching `unlock`, and read-only
//! `check_buffer_access`/`check_image_access` queries over the frozen state.

use crate::barrier::EmittedBarrier;
use crate::command::Command;
use crate::errors::{AccessCheckError, AccessError, CommandBufferExecError};
use crate::flags::{AccessFlags, DeviceRange, ImageLayout, PipelineMemoryAccess, PipelineStages};
use crate::future::GpuFuture;
use crate::locks::{BufLockOp, ImgLockOp, ResourceStates, apply_buf_op, apply_img_op};
use crate::range_map::{RangeEntry, RangeMap};
use crate::resource::{BufferRangeState, BufferUse, ImageRangeState, ImageUse};
use vstd::prelude::*;

verus! {

/// Accumulated stage bits of every declared use of `buffer`.
pub open spec fn acc_buf_stages(uses: Seq<BufferUse>, buffer: u64) -> u32
    decreases uses.len(),
{
    if uses.len() == 0 {
        0
    } else {
        acc_buf_stages(uses.drop_last(), buffer) | (if uses.last().buffer == buffer {
            uses.last().memory.stages.bits
        } else {
            0
        })
    }
}

/// Accumulated access bits of every declared use of `buffer`.
pub open spec fn acc_buf_access(uses: Seq<BufferUse>, buffer: u64) -> u32
    decreases uses.len(),
{
    if uses.len() == 0 {
        0
    } else {
        acc_buf_access(uses.drop_last(), buffer) | (if uses.last().buffer == buffer {
            uses.last().memory.access.bits
        } else {
            0
        })
    }
}

/// True if any declared use of `buffer` was exclusive.
pub open spec fn acc_buf_exclusive(uses: Seq<BufferUse>, buffer: u64) -> bool
    decreases uses.len(),
{
    if uses.len() == 0 {
        false
    } else {
        acc_buf_exclusive(uses.drop_last(), buffer) || (uses.last().buffer == buffer
            && uses.last().memory.exclusive)
    }
}

/// True if `buffer` was declared at least once.
pub open spec fn buf_used(uses: Seq<BufferUse>, buffer: u64) -> bool
    decreases uses.len(),
{
    if uses.len() == 0 {
        false
    } else {
        buf_used(uses.drop_last(), buffer) || uses.last().buffer == buffer
    }
}

/// The smallest range covering every declared range of `buffer` (meaningful
/// only when the buffer was used).
pub open spec fn acc_buf_hull(uses: Seq<BufferUse>, buffer: u64) -> DeviceRange
    decreases uses.len(),
{
    if uses.len() == 0 {
        DeviceRange { start: 0, end: 0 }
    } else if uses.last().buffer == buffer {
        if buf_used(uses.drop_last(), buffer) {
            let prev = acc_buf_hull(uses.drop_last(), buffer);
            let r = uses.last().range;
            DeviceRange {
                start: if prev.start <= r.start {
                    prev.start
                } else {
                    r.start
                },
                end: if prev.end >= r.end {
                    prev.end
                } else {
                    r.end
                },
            }
        } else {
            uses.last().range
        }
    } else {
        acc_buf_hull(uses.drop_last(), buffer)
    }
}

/// Accumulated stage bits of every declared use of `image`.
pub open spec fn acc_img_stages(uses: Seq<ImageUse>, image: u64) -> u32
    decreases uses.len(),
{
    if uses.len() == 0 {
        0
    } else {
        acc_img_stages(uses.drop_last(), image) | (if uses.last().image == image {
            uses.last().memory.stages.bits
        } else {
            0
        })
    }
}

/// Accumulated access bits of every declared use of `image`.
pub open spec fn acc_img_access(uses: Seq<ImageUse>, image: u64) -> u32
    decreases uses.len(),
{
    if uses.len() == 0 {
        0
    } else {
        acc_img_access(uses.drop_last(), image) | (if uses.last().image == image {
            uses.last().memory.access.bits
        } else {
            0
        })
    }
}

/// True if any declared use of `image` was exclusive.
pub open spec fn acc_img_exclusive(uses: Seq<ImageUse>, image: u64) -> bool
    decreases uses.len(),
{
    if uses.len() == 0 {
        false
    } else {
        acc_img_exclusive(uses.drop_last(), image) || (uses.last().image == image
            && uses.last().memory.exclusive)
    }
}

/// True if `image` was declared at least once.
pub open spec fn img_used(uses: Seq<ImageUse>, image: u64) -> bool
    decreases uses.len(),
{
    if uses.len() == 0 {
        false
    } else {
        img_used(uses.drop_last(), image) || uses.last().image == image
    }
}

/// The smallest range covering every declared range of `image` (meaningful
/// only when the image was used).
pub open spec fn acc_img_hull(uses: Seq<ImageUse>, image: u64) -> DeviceRange
    decreases uses.len(),
{
    if uses.len() == 0 {
        DeviceRange { start: 0, end: 0 }
    } else if uses.last().image == image {
        if img_used(uses.drop_last(), image) {
            let prev = acc_img_hull(uses.drop_last(), image);
            let r = uses.last().range;
            DeviceRange {
                start: if prev.start <= r.start {
                    prev.start
                } else {
                    r.start
                },
                end: if prev.end >= r.end {
                    prev.end
                } else {
                    r.end
                },
            }
        } else {
            uses.last().range
        }
    } else {
        acc_img_hull(uses.drop_last(), image)
    }
}

/// The start layout of the first declared use of `image` (meaningful only
/// when the image was used).
pub open spec fn acc_img_first_layout(uses: Seq<ImageUse>, image: u64) -> ImageLayout
    decreases uses.len(),
{
    if uses.len() == 0 {
        ImageLayout::Undefined
    } else if img_used(uses.drop_last(), image) {
        acc_img_first_layout(uses.drop_last(), image)
    } else if uses.last().image == image {
        uses.last().start_layout
    } else {
        ImageLayout::Undefined
    }
}

/// The end layout of the last declared use of `image` (meaningful only when
/// the image was used).
pub open spec fn acc_img_last_layout(uses: Seq<ImageUse>, image: u64) -> ImageLayout
    decreases uses.len(),
{
    if uses.len() == 0 {
        ImageLayout::Undefined
    } else if uses.last().image == image {
        uses.last().end_layout
    } else {
        acc_img_last_layout(uses.drop_last(), image)
    }
}

/// The buffer enumeration `list` holds exactly the distinct buffers of
/// `uses`, each with the accumulated access and covering range of its uses.
pub open spec fn buf_enumeration_ok(
    list: Seq<(u64, DeviceRange, PipelineMemoryAccess)>,
    uses: Seq<BufferUse>,
) -> bool {
    &&& forall|i: int, j: int|
        0 <= i < j < list.len() ==> (#[trigger] list[i]).0 != (#[trigger] list[j]).0
    &&& forall|i: int|
        0 <= i < list.len() ==> {
            let (id, range, memory) = #[trigger] list[i];
            buf_used(uses, id) && memory.stages.bits == acc_buf_stages(uses, id)
                && memory.access.bits == acc_buf_access(uses, id) && memory.exclusive
                == acc_buf_exclusive(uses, id) && range == acc_buf_hull(uses, id)
        }
    &&& forall|id: u64|
        buf_used(uses, id) ==> exists|i: int| 0 <= i < list.len() && (#[trigger] list[i]).0 == id
}

/// The image enumeration `list` holds exactly the distinct images of `uses`,
/// each with the accumulated access, covering range, first start layout and
/// last end layout of its uses.
pub open spec fn img_enumeration_ok(
    list: Seq<(u64, DeviceRange, PipelineMemoryAccess, ImageLayout, ImageLayout)>,
    uses: Seq<ImageUse>,
) -> bool {
    &&& forall|i: int, j: int|
        0 <= i < j < list.len() ==> (#[trigger] list[i]).0 != (#[trigger] list[j]).0
    &&& forall|i: int|
        0 <= i < list.len() ==> {
            let (id, range, memory, start_layout, end_layout) = #[trigger] list[i];
            img_used(uses, id) && memory.stages.bits == acc_img_stages(uses, id)
                && memory.access.bits == acc_img_access(uses, id) && memory.exclusive
                == acc_img_exclusive(uses, id) && range == acc_img_hull(uses, id) && start_layout
                == acc_img_first_layout(uses, id) && end_layout == acc_img_last_layout(uses, id)
        }
    &&& forall|id: u64|
        img_used(uses, id) ==> exists|i: int| 0 <= i < list.len() && (#[trigger] list[i]).0 == id
}

/// Folds the frozen buffer states in `entries` (ascending) over the query
/// `[qs, qe)`: accumulates the stage and access bits of every overlapping
/// state, stopping at the first overlapping state that is shared while the
/// query asks for exclusivity (the query cannot be answered: `Unknown`).
pub open spec fn buf_query_fold(
    entries: Seq<RangeEntry<BufferRangeState>>,
    qs: int,
    qe: int,
    exclusive: bool,
    acc: (u32, u32),
) -> Result<(u32, u32), AccessCheckError>
    decreases entries.len(),
{
    if entries.len() == 0 {
        Ok(acc)
    } else {
        let e = entries[0];
        let rest = entries.drop_first();
        if e.start < qe && qs < e.end {
            if !e.value.exclusive && exclusive {
                Err(AccessCheckError::Unknown)
            } else {
                buf_query_fold(
                    rest,
                    qs,
                    qe,
                    exclusive,
                    (acc.0 | e.value.stages.bits, acc.1 | e.value.access.bits),
                )
            }
        } else {
            buf_query_fold(rest, qs, qe, exclusive, acc)
        }
    }
}

/// Folds the frozen image states in `entries` (ascending) over the query:
/// like [`buf_query_fold`], but each overlapping state is first checked
/// against the expected layout, and a mismatch is an outright denial.
pub open spec fn img_query_fold(
    entries: Seq<RangeEntry<ImageRangeState>>,
    qs: int,
    qe: int,
    exclusive: bool,
    expected: ImageLayout,
    acc: (u32, u32),
) -> Result<(u32, u32), AccessCheckError>
    decreases entries.len(),
{
    if entries.len() == 0 {
        Ok(acc)
    } else {
        let e = entries[0];
        let rest = entries.drop_first();
        if e.start < qe && qs < e.end {
            if expected != ImageLayout::Undefined && e.value.final_layout != expected {
                Err(
                    AccessCheckError::Denied(
                        AccessError::UnexpectedImageLayout {
                            allowed: e.value.final_layout,
                            requested: expected,
                        },
                    ),
                )
            } else if !e.value.exclusive && exclusive {
                Err(AccessCheckError::Unknown)
            } else {
                img_query_fold(
                    rest,
                    qs,
                    qe,
                    exclusive,
                    expected,
                    (acc.0 | e.value.stages.bits, acc.1 | e.value.access.bits),
                )
            }
        } else {
            img_query_fold(rest, qs, qe, exclusive, expected, acc)
        }
    }
}

/// Command buffer built by a synchronizing builder: the frozen tracking state
/// plus everything needed to replay and to lock at submission time.
pub struct SyncCommandBuffer {
    /// Native command buffer handle.
    pub(crate) inner: u64,
    /// The recorded commands, in order.
    pub(crate) commands: Vec<Command>,
    /// Command indices at which the stream was split into separately flushed
    /// batches; between two consecutive recorded batches stands one pipeline
    /// barrier.  Empty when no barrier was needed.
    pub(crate) barriers: Vec<usize>,
    /// The pipeline barriers flushed into the native stream, each with the
    /// command index it stands in front of.
    pub(crate) emitted_barriers: Vec<EmittedBarrier>,
    /// Frozen per-range state of every tracked buffer.
    pub(crate) buffers2: Vec<(u64, RangeMap<BufferRangeState>)>,
    /// Frozen per-range state of every tracked image.
    pub(crate) images2: Vec<(u64, RangeMap<ImageRangeState>)>,
    /// One entry per distinct buffer: covering range and accumulated access,
    /// for secondary-command-buffer execution bookkeeping.
    pub(crate) buffers: Vec<(u64, DeviceRange, PipelineMemoryAccess)>,
    /// One entry per distinct image: covering range, accumulated access, and
    /// the first start layout and last end layout declared.
    pub(crate) images: Vec<(u64, DeviceRange, PipelineMemoryAccess, ImageLayout, ImageLayout)>,
    /// Every declared buffer access, in recording order.
    pub(crate) buffer_uses: Vec<BufferUse>,
    /// Every declared image access, in recording order.
    pub(crate) image_uses: Vec<ImageUse>,
}

impl SyncCommandBuffer {
    /// The recorded commands.
    pub closed spec fn spec_commands(&self) -> Seq<Command> {
        self.commands@
    }

    /// The flush-batch boundaries.
    pub closed spec fn spec_barriers(&self) -> Seq<usize> {
        self.barriers@
    }

    /// The flushed pipeline barriers.
    pub closed spec fn spec_emitted(&self) -> Seq<EmittedBarrier> {
        self.emitted_barriers@
    }

    /// The frozen buffer tracking entries.
    pub closed spec fn buf_entries(&self) -> Seq<(u64, RangeMap<BufferRangeState>)> {
        self.buffers2@
    }

    /// The frozen image tracking entries.
    pub closed spec fn img_entries(&self) -> Seq<(u64, RangeMap<ImageRangeState>)> {
        self.images2@
    }

    /// The buffer enumeration.
    pub closed spec fn spec_buffers(&self) -> Seq<(u64, DeviceRange, PipelineMemoryAccess)> {
        self.buffers@
    }

    /// The image enumeration.
    pub closed spec fn spec_images(&self) -> Seq<
        (u64, DeviceRange, PipelineMemoryAccess, ImageLayout, ImageLayout),
    > {
        self.images@
    }

    /// The declared buffer accesses, in recording order.
    pub closed spec fn spec_buffer_uses(&self) -> Seq<BufferUse> {
        self.buffer_uses@
    }

    /// The declared image accesses, in recording order.
    pub closed spec fn spec_image_uses(&self) -> Seq<ImageUse> {
        self.image_uses@
    }

    /// True if `buffer` has a frozen tracking entry.
    pub open spec fn spec_has_buffer(&self, buffer: u64) -> bool {
        exists|i: int| 0 <= i < self.buf_entries().len() && (#[trigger] self.buf_entries()[i]).0 == buffer
    }

    /// Index of `buffer`'s tracking entry.
    pub open spec fn buf_idx(&self, buffer: u64) -> int {
        choose|i: int| 0 <= i < self.buf_entries().len() && (#[trigger] self.buf_entries()[i]).0 == buffer
    }

    /// True if `image` has a frozen tracking entry.
    pub open spec fn spec_has_image(&self, image: u64) -> bool {
        exists|i: int| 0 <= i < self.img_entries().len() && (#[trigger] self.img_entries()[i]).0 == image
    }

    /// Index of `image`'s tracking entry.
    pub open spec fn img_idx(&self, image: u64) -> int {
        choose|i: int| 0 <= i < self.img_entries().len() && (#[trigger] self.img_entries()[i]).0 == image
    }

    /// The frozen state of point `k` of `buffer`, if tracked.
    pub open spec fn buf_access(&self, buffer: u64, k: int) -> Option<BufferRangeState> {
        if self.spec_has_buffer(buffer) {
            self.buf_entries()[self.buf_idx(buffer)].1.at(k)
        } else {
            None
        }
    }

    /// The frozen state of point `k` of `image`, if tracked.
    pub open spec fn img_access(&self, image: u64, k: int) -> Option<ImageRangeState> {
        if self.spec_has_image(image) {
            self.img_entries()[self.img_idx(image)].1.at(k)
        } else {
            None
        }
    }

    /// Well-formedness: distinct handles, well-formed non-empty maps,
    /// diagnostics that point at real commands, and an enumeration that
    /// accumulates exactly the declared uses.  A handle has a tracking entry
    /// exactly when some point of it is tracked.
    pub open spec fn wf(&self) -> bool {
        &&& forall|i: int, j: int|
            0 <= i < j < self.buf_entries().len() ==> (#[trigger] self.buf_entries()[i]).0 != (
            #[trigger] self.buf_entries()[j]).0
        &&& forall|i: int|
            0 <= i < self.buf_entries().len() ==> (#[trigger] self.buf_entries()[i]).1.wf()
        &&& forall|i: int|
            0 <= i < self.buf_entries().len() ==> (#[trigger] self.buf_entries()[
            i]).1.entries().len() > 0
        &&& forall|i: int|
            0 <= i < self.img_entries().len() ==> (#[trigger] self.img_entries()[
            i]).1.entries().len() > 0
        &&& forall|i: int, j: int|
            0 <= i < j < self.img_entries().len() ==> (#[trigger] self.img_entries()[i]).0 != (
            #[trigger] self.img_entries()[j]).0
        &&& forall|i: int|
            0 <= i < self.img_entries().len() ==> (#[trigger] self.img_entries()[i]).1.wf()
        &&& forall|i: int, j: int|
            #![trigger self.buf_entries()[i].1.entries()[j]]
            0 <= i < self.buf_entries().len() && 0 <= j < self.buf_entries()[i].1.entries().len()
                ==> self.buf_entries()[i].1.entries()[j].value.first_use.command_index
                < self.spec_commands().len()
        &&& forall|i: int, j: int|
            #![trigger self.img_entries()[i].1.entries()[j]]
            0 <= i < self.img_entries().len() && 0 <= j < self.img_entries()[i].1.entries().len()
                ==> self.img_entries()[i].1.entries()[j].value.first_use.command_index
                < self.spec_commands().len()
        &&& self.enumeration_ok()
    }

    /// The per-resource enumeration lists exactly the distinct declared
    /// resources, each with the union of its declared stages, accesses and
    /// exclusivity, the covering range of its declared ranges, and (for
    /// images) the first start layout and last end layout declared.
    pub open spec fn enumeration_ok(&self) -> bool {
        &&& buf_enumeration_ok(self.spec_buffers(), self.spec_buffer_uses())
        &&& img_enumeration_ok(self.spec_images(), self.spec_image_uses())
    }

    /// When the tracked handles are distinct, the entry of a handle is
    /// unique.
    pub proof fn lemma_buf_lookup(&self, i: int)
        requires
            forall|i2: int, j2: int|
                0 <= i2 < j2 < self.buf_entries().len() ==> (#[trigger] self.buf_entries()[
                i2]).0 != (#[trigger] self.buf_entries()[j2]).0,
            0 <= i < self.buf_entries().len(),
        ensures
            self.spec_has_buffer(self.buf_entries()[i].0),
            self.buf_idx(self.buf_entries()[i].0) == i,
    {
        let id = self.buf_entries()[i].0;
        assert(self.spec_has_buffer(id));
        let j = self.buf_idx(id);
        if i < j {
            assert(self.buf_entries()[i].0 != self.buf_entries()[j].0);
        } else if j < i {
            assert(self.buf_entries()[j].0 != self.buf_entries()[i].0);
        }
    }

    /// When the tracked handles are distinct, the entry of a handle is
    /// unique.
    pub proof fn lemma_img_lookup(&self, i: int)
        requires
            forall|i2: int, j2: int|
                0 <= i2 < j2 < self.img_entries().len() ==> (#[trigger] self.img_entries()[
                i2]).0 != (#[trigger] self.img_entries()[j2]).0,
            0 <= i < self.img_entries().len(),
        ensures
            self.spec_has_image(self.img_entries()[i].0),
            self.img_idx(self.img_entries()[i].0) == i,
    {
        let id = self.img_entries()[i].0;
        assert(self.spec_has_image(id));
        let j = self.img_idx(id);
        if i < j {
            assert(self.img_entries()[i].0 != self.img_entries()[j].0);
        } else if j < i {
            assert(self.img_entries()[j].0 != self.img_entries()[i].0);
        }
    }

    /// A handle holds a tracking entry exactly when some point of it is
    /// tracked: an untracked resource never has a (possibly empty) entry, so
    /// the access queries answer `Unknown` for it.
    pub proof fn lemma_has_iff_tracked(&self)
        requires
            self.wf(),
        ensures
            forall|b: u64|
                #[trigger] self.spec_has_buffer(b) <==> exists|k: int|
                    (#[trigger] self.buf_access(b, k)) is Some,
            forall|b: u64|
                #[trigger] self.spec_has_image(b) <==> exists|k: int|
                    (#[trigger] self.img_access(b, k)) is Some,
    {
        assert forall|b: u64| #[trigger] self.spec_has_buffer(b) implies exists|k: int|
            (#[trigger] self.buf_access(b, k)) is Some by {
            let i = self.buf_idx(b);
            let rm = self.buf_entries()[i].1;
            let k0 = rm.entries()[0].start as int;
            rm.lemma_at_entry(0, k0);
            assert(self.buf_access(b, k0) is Some);
        }
        assert forall|b: u64| #[trigger] self.spec_has_image(b) implies exists|k: int|
            (#[trigger] self.img_access(b, k)) is Some by {
            let i = self.img_idx(b);
            let rm = self.img_entries()[i].1;
            let k0 = rm.entries()[0].start as int;
            rm.lemma_at_entry(0, k0);
            assert(self.img_access(b, k0) is Some);
        }
    }

    /// Assembles a finalized command buffer from its frozen parts.
    pub(crate) fn assemble(
        inner: u64,
        commands: Vec<Command>,
        barriers: Vec<usize>,
        emitted_barriers: Vec<EmittedBarrier>,
        buffers2: Vec<(u64, RangeMap<BufferRangeState>)>,
        images2: Vec<(u64, RangeMap<ImageRangeState>)>,
        buffers: Vec<(u64, DeviceRange, PipelineMemoryAccess)>,
        images: Vec<(u64, DeviceRange, PipelineMemoryAccess, ImageLayout, ImageLayout)>,
        buffer_uses: Vec<BufferUse>,
        image_uses: Vec<ImageUse>,
    ) -> (cb: SyncCommandBuffer)
        ensures
            cb.spec_inner() == inner,
            cb.spec_commands() == commands@,
            cb.spec_barriers() == barriers@,
            cb.spec_emitted() == emitted_barriers@,
            cb.buf_entries() == buffers2@,
            cb.img_entries() == images2@,
            cb.spec_buffers() == buffers@,
            cb.spec_images() == images@,
            cb.spec_buffer_uses() == buffer_uses@,
            cb.spec_image_uses() == image_uses@,
    {
        SyncCommandBuffer {
            inner,
            commands,
            barriers,
            emitted_barriers,
            buffers2,
            images2,
            buffers,
            images,
            buffer_uses,
            image_uses,
        }
    }

    /// The native command buffer handle.
    pub fn inner(&self) -> (r: u64)
        ensures
            r == self.spec_inner(),
    {
        self.inner
    }

    /// The native command buffer handle.
    pub closed spec fn spec_inner(&self) -> u64 {
        self.inner
    }

    /// The number of recorded commands.
    pub fn num_commands(&self) -> (n: usize)
        ensures
            n == self.spec_commands().len(),
    {
        self.commands.len()
    }

    /// The recorded command at `index`.
    pub fn command(&self, index: usize) -> (r: &Command)
        requires
            index < self.spec_commands().len(),
        ensures
            *r == self.spec_commands()[index as int],
    {
        &self.commands[index]
    }

    /// The diagnostic name of the command at `index`.
    pub fn command_name(&self, index: usize) -> (r: &'static str)
        requires
            index < self.spec_commands().len(),
        ensures
            r@ == self.spec_commands()[index as int].spec_name(),
    {
        self.commands[index].name()
    }

    /// The flush-batch boundaries, for inspection.
    pub fn batch_boundaries(&self) -> (r: &Vec<usize>)
        ensures
            r@ == self.spec_barriers(),
    {
        &self.barriers
    }

    /// The number of pipeline barriers flushed into the native stream.
    pub fn num_emitted_barriers(&self) -> (n: usize)
        ensures
            n == self.spec_emitted().len(),
    {
        self.emitted_barriers.len()
    }

    /// The flushed pipeline barrier at position `i`.
    pub fn emitted_barrier(&self, i: usize) -> (r: &EmittedBarrier)
        requires
            i < self.spec_emitted().len(),
        ensures
            *r == self.spec_emitted()[i as int],
    {
        &self.emitted_barriers[i]
    }

    /// Position of `buffer`'s frozen entry, if any.
    fn find_buffer2(&self, buffer: u64) -> (r: Option<usize>)
        ensures
            match r {
                Some(i) => i < self.buf_entries().len() && self.buf_entries()[i as int].0 == buffer,
                None => !self.spec_has_buffer(buffer),
            },
    {
        let mut i: usize = 0;
        while i < self.buffers2.len()
            invariant
                i <= self.buf_entries().len(),
                forall|j: int| 0 <= j < i ==> (#[trigger] self.buf_entries()[j]).0 != buffer,
            decreases self.buf_entries().len() - i,
        {
            if self.buffers2[i].0 == buffer {
                return Some(i);
            }
            i = i + 1;
        }
        None
    }

    /// Position of `image`'s frozen entry, if any.
    fn find_image2(&self, image: u64) -> (r: Option<usize>)
        ensures
            match r {
                Some(i) => i < self.img_entries().len() && self.img_entries()[i as int].0 == image,
                None => !self.spec_has_image(image),
            },
    {
        let mut i: usize = 0;
        while i < self.images2.len()
            invariant
                i <= self.img_entries().len(),
                forall|j: int| 0 <= j < i ==> (#[trigger] self.img_entries()[j]).0 != image,
            decreases self.img_entries().len() - i,
        {
            if self.images2[i].0 == image {
                return Some(i);
            }
            i = i + 1;
        }
        None
    }

    /// Checks whether this command buffer has access to `range` of `buffer`.
    ///
    /// Returns the union of the recorded stage and access masks over the
    /// query when every overlapping recorded state is compatible with the
    /// requested exclusivity; `Unknown` when the buffer is untracked or an
    /// overlapping state was shared while exclusive access is asked for.
    pub fn check_buffer_access(
        &self,
        buffer: u64,
        range: DeviceRange,
        exclusive: bool,
        queue: u64,
    ) -> (r: Result<Option<(PipelineStages, AccessFlags)>, AccessCheckError>)
        requires
            self.wf(),
        ensures
            !self.spec_has_buffer(buffer) ==> r == Err::<
                Option<(PipelineStages, AccessFlags)>,
                AccessCheckError,
            >(AccessCheckError::Unknown),
            self.spec_has_buffer(buffer) ==> r == (match buf_query_fold(
                self.buf_entries()[self.buf_idx(buffer)].1.entries(),
                range.start as int,
                range.end as int,
                exclusive,
                (0u32, 0u32),
            ) {
                Ok((s, a)) => Ok::<Option<(PipelineStages, AccessFlags)>, AccessCheckError>(
                    Some((PipelineStages { bits: s }, AccessFlags { bits: a })),
                ),
                Err(e) => Err(e),
            }),
    {
        let idx = match self.find_buffer2(buffer) {
            Some(i) => i,
            None => {
                return Err(AccessCheckError::Unknown);
            },
        };
        proof {
            self.lemma_buf_lookup(idx as int);
        }
        let rm = &self.buffers2[idx].1;
        let ghost full = self.buf_entries()[idx as int].1.entries();
        let ghost qs = range.start as int;
        let ghost qe = range.end as int;
        let mut stages: u32 = 0;
        let mut access: u32 = 0;
        let mut i: usize = 0;
        proof {
            assert(full.skip(0) =~= full);
        }
        while i < rm.num_entries()
            invariant
                self.wf(),
                idx < self.buf_entries().len(),
                self.buf_entries()[idx as int].0 == buffer,
                rm == &self.buf_entries()[idx as int].1,
                full == self.buf_entries()[idx as int].1.entries(),
                qs == range.start as int,
                qe == range.end as int,
                i <= full.len(),
                buf_query_fold(full, qs, qe, exclusive, (0u32, 0u32)) == buf_query_fold(
                    full.skip(i as int),
                    qs,
                    qe,
                    exclusive,
                    (stages, access),
                ),
            decreases full.len() - i,
        {
            let e = rm.entry(i);
            proof {
                assert(full.skip(i as int).len() > 0);
                assert(full.skip(i as int)[0] == full[i as int]);
                assert(full.skip(i as int).drop_first() =~= full.skip(i as int + 1));
            }
            if e.start < range.end && range.start < e.end {
                if !e.value.exclusive && exclusive {
                    return Err(AccessCheckError::Unknown);
                }
                stages = stages | e.value.stages.bits;
                access = access | e.value.access.bits;
            }
            i = i + 1;
        }
        proof {
            assert(full.skip(i as int) =~= Seq::<RangeEntry<BufferRangeState>>::empty());
        }
        Ok(Some((PipelineStages { bits: stages }, AccessFlags { bits: access })))
    }

    /// Checks whether this command buffer has access to `range` of `image`
    /// while expecting `expected_layout`.
    ///
    /// Like [`SyncCommandBuffer::check_buffer_access`], but each overlapping
    /// recorded state must additionally hold the expected final layout
    /// (unless the expectation is `Undefined`); a mismatch is denied with the
    /// recorded layout.
    pub fn check_image_access(
        &self,
        image: u64,
        range: DeviceRange,
        exclusive: bool,
        expected_layout: ImageLayout,
        queue: u64,
    ) -> (r: Result<Option<(PipelineStages, AccessFlags)>, AccessCheckError>)
        requires
            self.wf(),
        ensures
            !self.spec_has_image(image) ==> r == Err::<
                Option<(PipelineStages, AccessFlags)>,
                AccessCheckError,
            >(AccessCheckError::Unknown),
            self.spec_has_image(image) ==> r == (match img_query_fold(
                self.img_entries()[self.img_idx(image)].1.entries(),
                range.start as int,
                range.end as int,
                exclusive,
                expected_layout,
                (0u32, 0u32),
            ) {
                Ok((s, a)) => Ok::<Option<(PipelineStages, AccessFlags)>, AccessCheckError>(
                    Some((PipelineStages { bits: s }, AccessFlags { bits: a })),
                ),
                Err(e) => Err(e),
            }),
    {
        let idx = match self.find_image2(image) {
            Some(i) => i,
            None => {
                return Err(AccessCheckError::Unknown);
            },
        };
        proof {
            self.lemma_img_lookup(idx as int);
        }
        let rm = &self.images2[idx].1;
        let ghost full = self.img_entries()[idx as int].1.entries();
        let ghost qs = range.start as int;
        let ghost qe = range.end as int;
        let mut stages: u32 = 0;
        let mut access: u32 = 0;
        let mut i: usize = 0;
        proof {
            assert(full.skip(0) =~= full);
        }
        while i < rm.num_entries()
            invariant
                self.wf(),
                idx < self.img_entries().len(),
                self.img_entries()[idx as int].0 == image,
                rm == &self.img_entries()[idx as int].1,
                full == self.img_entries()[idx as int].1.entries(),
                qs == range.start as int,
                qe == range.end as int,
                i <= full.len(),
                img_query_fold(full, qs, qe, exclusive, expected_layout, (0u32, 0u32))
                    == img_query_fold(
                    full.skip(i as int),
                    qs,
                    qe,
                    exclusive,
                    expected_layout,
                    (stages, access),
                ),
            decreases full.len() - i,
        {
            let e = rm.entry(i);
            proof {
                assert(full.skip(i as int).len() > 0);
                assert(full.skip(i as int)[0] == full[i as int]);
                assert(full.skip(i as int).drop_first() =~= full.skip(i as int + 1));
            }
            if e.start < range.end && range.start < e.end {
                if expected_layout != ImageLayout::Undefined && e.value.final_layout
                    != expected_layout {
                    return Err(
                        AccessCheckError::Denied(
                            AccessError::UnexpectedImageLayout {
                                allowed: e.value.final_layout,
                                requested: expected_layout,
                            },
                        ),
                    );
                }
                if !e.value.exclusive && exclusive {
                    return Err(AccessCheckError::Unknown);
                }
                stages = stages | e.value.stages.bits;
                access = access | e.value.access.bits;
            }
            i = i + 1;
        }
        proof {
            assert(full.skip(i as int) =~= Seq::<RangeEntry<ImageRangeState>>::empty());
        }
        Ok(Some((PipelineStages { bits: stages }, AccessFlags { bits: access })))
    }

    /// Whether one frozen buffer range passes the submission check: the
    /// future vouches for it, or — if the future knows nothing — the live
    /// lock state can take the matching lock.
    pub open spec fn buf_entry_ok<F: GpuFuture>(
        &self,
        future: &F,
        states: ResourceStates,
        queue: u64,
        i: int,
        j: int,
    ) -> bool {
        let id = self.buf_entries()[i].0;
        let e = self.buf_entries()[i].1.entries()[j];
        let rg = DeviceRange { start: e.start, end: e.end };
        match future.spec_check_buffer_access(id, rg, e.value.exclusive, queue) {
            Ok(_) => true,
            Err(AccessCheckError::Denied(_)) => false,
            Err(AccessCheckError::Unknown) => states.spec_buf_lockable(id, rg, e.value.exclusive),
        }
    }

    /// Whether one frozen image range passes the submission check; the live
    /// fallback also checks the range is in the recorded initial layout.
    pub open spec fn img_entry_ok<F: GpuFuture>(
        &self,
        future: &F,
        states: ResourceStates,
        queue: u64,
        i: int,
        j: int,
    ) -> bool {
        let id = self.img_entries()[i].0;
        let e = self.img_entries()[i].1.entries()[j];
        let rg = DeviceRange { start: e.start, end: e.end };
        match future.spec_check_image_access(
            id,
            rg,
            e.value.exclusive,
            e.value.initial_layout,
            queue,
        ) {
            Ok(_) => true,
            Err(AccessCheckError::Denied(_)) => false,
            Err(AccessCheckError::Unknown) => states.spec_img_lockable(
                id,
                rg,
                e.value.exclusive,
                e.value.initial_layout,
            ),
        }
    }

    /// Whether every tracked range of every resource passes the submission
    /// check, so that all locks can be taken.
    pub open spec fn lockable<F: GpuFuture>(
        &self,
        future: &F,
        states: ResourceStates,
        queue: u64,
    ) -> bool {
        &&& forall|i: int, j: int|
            #![trigger self.buf_entries()[i].1.entries()[j]]
            0 <= i < self.buf_entries().len() && 0 <= j < self.buf_entries()[i].1.entries().len()
                ==> self.buf_entry_ok(future, states, queue, i, j)
        &&& forall|i: int, j: int|
            #![trigger self.img_entries()[i].1.entries()[j]]
            0 <= i < self.img_entries().len() && 0 <= j < self.img_entries()[i].1.entries().len()
                ==> self.img_entry_ok(future, states, queue, i, j)
    }

    /// The lock counters of every point this buffer touches have headroom
    /// for one more lock (a machine limit on the lock counters).
    pub open spec fn lock_headroom(&self, states: ResourceStates) -> bool {
        &&& forall|b: u64, k: int|
            (#[trigger] self.buf_access(b, k)) is Some ==> states.buf_lock(b, k).readers < u64::MAX
                && states.buf_lock(b, k).writers < u64::MAX
        &&& forall|b: u64, k: int|
            (#[trigger] self.img_access(b, k)) is Some ==> states.img_lock(b, k).readers < u64::MAX
                && states.img_lock(b, k).writers < u64::MAX
    }

    /// Every lock this buffer takes on success is held in `states`: an
    /// exclusive range holds a write lock, a shared range a read lock.
    pub open spec fn locks_held(&self, states: ResourceStates) -> bool {
        &&& forall|b: u64, k: int|
            match #[trigger] self.buf_access(b, k) {
                Some(st) => if st.exclusive {
                    states.buf_lock(b, k).writers >= 1
                } else {
                    states.buf_lock(b, k).readers >= 1
                },
                None => true,
            }
        &&& forall|b: u64, k: int|
            match #[trigger] self.img_access(b, k) {
                Some(st) => if st.exclusive {
                    states.img_lock(b, k).writers >= 1
                } else {
                    states.img_lock(b, k).readers >= 1
                },
                None => true,
            }
    }

    /// The lock operation this buffer applies at a tracked buffer point.
    pub open spec fn buf_lock_op(st: BufferRangeState) -> BufLockOp {
        if st.exclusive {
            BufLockOp::AcquireWrite
        } else {
            BufLockOp::AcquireRead
        }
    }

    /// The lock operation this buffer applies at a tracked image point: an
    /// exclusive access also records the final layout the range will hold.
    pub open spec fn img_lock_op(st: ImageRangeState) -> ImgLockOp {
        if st.exclusive {
            ImgLockOp::AcquireWrite(st.final_layout)
        } else {
            ImgLockOp::AcquireRead
        }
    }

    /// True if `e` carries the diagnostics of frozen buffer entry `(i, j)`:
    /// the name, parameter and sequence index of the first command that used
    /// the conflicting range, wrapping the future's denial — or, when the
    /// future knew nothing, the live lock check's refusal.
    pub open spec fn buf_error_diag<F: GpuFuture>(
        &self,
        future: &F,
        states: ResourceStates,
        queue: u64,
        i: int,
        j: int,
        e: CommandBufferExecError,
    ) -> bool {
        let id = self.buf_entries()[i].0;
        let ent = self.buf_entries()[i].1.entries()[j];
        let st = ent.value;
        let rg = DeviceRange { start: ent.start, end: ent.end };
        match e {
            CommandBufferExecError::AccessError {
                error,
                command_name,
                command_param,
                command_offset,
            } => {
                &&& command_name@ == self.spec_commands()[
                    st.first_use.command_index as int].spec_name()
                &&& command_param == st.first_use.name
                &&& command_offset == st.first_use.command_index
                &&& match future.spec_check_buffer_access(id, rg, st.exclusive, queue) {
                    Err(AccessCheckError::Denied(e0)) => error == e0,
                    Err(AccessCheckError::Unknown) => error == AccessError::AlreadyInUse
                        && !states.spec_buf_lockable(id, rg, st.exclusive),
                    Ok(_) => false,
                }
            },
        }
    }

    /// True if `e` carries the diagnostics of frozen image entry `(i, j)`,
    /// wrapping the future's denial or the live check's refusal.
    pub open spec fn img_error_diag<F: GpuFuture>(
        &self,
        future: &F,
        states: ResourceStates,
        queue: u64,
        i: int,
        j: int,
        e: CommandBufferExecError,
    ) -> bool {
        let id = self.img_entries()[i].0;
        let ent = self.img_entries()[i].1.entries()[j];
        let st = ent.value;
        let rg = DeviceRange { start: ent.start, end: ent.end };
        match e {
            CommandBufferExecError::AccessError {
                error,
                command_name,
                command_param,
                command_offset,
            } => {
                &&& command_name@ == self.spec_commands()[
                    st.first_use.command_index as int].spec_name()
                &&& command_param == st.first_use.name
                &&& command_offset == st.first_use.command_index
                &&& match future.spec_check_image_access(
                    id,
                    rg,
                    st.exclusive,
                    st.initial_layout,
                    queue,
                ) {
                    Err(AccessCheckError::Denied(e0)) => error == e0,
                    Err(AccessCheckError::Unknown) => states.img_live_error_matches(
                        id,
                        rg,
                        st.exclusive,
                        st.initial_layout,
                        error,
                    ),
                    Ok(_) => false,
                }
            },
        }
    }

    /// Tries to lock every resource this command buffer uses, for submission
    /// alongside the work `future` stands for.
    ///
    /// All-or-nothing: every tracked range is checked first — against the
    /// future, then against the live lock state where the future knows
    /// nothing — and only if every check passes are the locks taken.  On
    /// failure nothing is locked and the error names the first command that
    /// used the offending range.
    pub fn lock_submit<F: GpuFuture>(
        &self,
        future: &F,
        queue: u64,
        states: &mut ResourceStates,
    ) -> (r: Result<(), CommandBufferExecError>)
        requires
            self.wf(),
            old(states).wf(),
            self.lock_headroom(*old(states)),
        ensures
            final(states).wf(),
            r is Ok <==> self.lockable(future, *old(states), queue),
            r is Err ==> *final(states) == *old(states),
            r is Ok ==> forall|b: u64, k: int|
                #![trigger final(states).buf_lock(b, k)]
                final(states).buf_lock(b, k) == (match self.buf_access(b, k) {
                    Some(st) => apply_buf_op(
                        SyncCommandBuffer::buf_lock_op(st),
                        old(states).buf_lock(b, k),
                    ),
                    None => old(states).buf_lock(b, k),
                }),
            r is Ok ==> forall|b: u64, k: int|
                #![trigger final(states).img_lock(b, k)]
                final(states).img_lock(b, k) == (match self.img_access(b, k) {
                    Some(st) => apply_img_op(
                        SyncCommandBuffer::img_lock_op(st),
                        old(states).img_lock(b, k),
                    ),
                    None => old(states).img_lock(b, k),
                }),
            match r {
                Ok(_) => true,
                Err(e) => (exists|i: int, j: int|
                    #![trigger self.buf_entries()[i].1.entries()[j]]
                    0 <= i < self.buf_entries().len() && 0 <= j < self.buf_entries()[
                        i].1.entries().len() && !self.buf_entry_ok(future, *old(states), queue, i, j)
                        && self.buf_error_diag(future, *old(states), queue, i, j, e)) || (exists|
                    i: int,
                    j: int,
                |
                    #![trigger self.img_entries()[i].1.entries()[j]]
                    0 <= i < self.img_entries().len() && 0 <= j < self.img_entries()[
                        i].1.entries().len() && !self.img_entry_ok(future, *old(states), queue, i, j)
                        && self.img_error_diag(future, *old(states), queue, i, j, e)),
            },
    {
        let ghost states0 = *states;
        // Phase one: check that every tracked range can be locked, without
        // mutating anything.
        let mut bi: usize = 0;
        while bi < self.buffers2.len()
            invariant
                self.wf(),
                states.wf(),
                *states == states0,
                states0 == *old(states),
                bi <= self.buf_entries().len(),
                forall|i: int, j: int|
                    #![trigger self.buf_entries()[i].1.entries()[j]]
                    0 <= i < bi && 0 <= j < self.buf_entries()[i].1.entries().len()
                        ==> self.buf_entry_ok(future, states0, queue, i, j),
            decreases self.buf_entries().len() - bi,
        {
            let id = self.buffers2[bi].0;
            let n = self.buffers2[bi].1.num_entries();
            let mut ei: usize = 0;
            while ei < n
                invariant
                    self.wf(),
                    states.wf(),
                    *states == states0,
                    states0 == *old(states),
                    bi < self.buf_entries().len(),
                    id == self.buf_entries()[bi as int].0,
                    n == self.buf_entries()[bi as int].1.entries().len(),
                    ei <= n,
                    forall|i: int, j: int|
                        #![trigger self.buf_entries()[i].1.entries()[j]]
                        0 <= i < bi && 0 <= j < self.buf_entries()[i].1.entries().len()
                            ==> self.buf_entry_ok(future, states0, queue, i, j),
                    forall|j: int|
                        #![trigger self.buf_entries()[bi as int].1.entries()[j]]
                        0 <= j < ei ==> self.buf_entry_ok(future, states0, queue, bi as int, j),
                decreases n - ei,
            {
                let e = self.buffers2[bi].1.entry(ei);
                let rg = DeviceRange { start: e.start, end: e.end };
                let fail: Option<AccessError> = match future.check_buffer_access(
                    id,
                    rg,
                    e.value.exclusive,
                    queue,
                ) {
                    Ok(_) => None,
                    Err(AccessCheckError::Denied(err)) => Some(err),
                    Err(AccessCheckError::Unknown) => {
                        match states.check_buffer(id, rg, e.value.exclusive) {
                            Ok(_) => None,
                            Err(err) => Some(err),
                        }
                    },
                };
                if let Some(err) = fail {
                    let fu = e.value.first_use;
                    let r = Err(
                        CommandBufferExecError::AccessError {
                            error: err,
                            command_name: self.commands[fu.command_index].name(),
                            command_param: fu.name,
                            command_offset: fu.command_index,
                        },
                    );
                    proof {
                        assert(!self.buf_entry_ok(future, states0, queue, bi as int, ei as int));
                        assert(self.buf_entries()[bi as int].1.entries()[ei as int]
                            == self.buf_entries()[bi as int].1.entries()[ei as int]);
                    }
                    return r;
                }
                ei = ei + 1;
            }
            bi = bi + 1;
        }
        let mut ii: usize = 0;
        while ii < self.images2.len()
            invariant
                self.wf(),
                states.wf(),
                *states == states0,
                states0 == *old(states),
                ii <= self.img_entries().len(),
                forall|i: int, j: int|
                    #![trigger self.buf_entries()[i].1.entries()[j]]
                    0 <= i < self.buf_entries().len() && 0 <= j < self.buf_entries()[
                        i].1.entries().len() ==> self.buf_entry_ok(future, states0, queue, i, j),
                forall|i: int, j: int|
                    #![trigger self.img_entries()[i].1.entries()[j]]
                    0 <= i < ii && 0 <= j < self.img_entries()[i].1.entries().len()
                        ==> self.img_entry_ok(future, states0, queue, i, j),
            decreases self.img_entries().len() - ii,
        {
            let id = self.images2[ii].0;
            let n = self.images2[ii].1.num_entries();
            let mut ei: usize = 0;
            while ei < n
                invariant
                    self.wf(),
                    states.wf(),
                    *states == states0,
                    states0 == *old(states),
                    ii < self.img_entries().len(),
                    id == self.img_entries()[ii as int].0,
                    n == self.img_entries()[ii as int].1.entries().len(),
                    ei <= n,
                    forall|i: int, j: int|
                        #![trigger self.buf_entries()[i].1.entries()[j]]
                        0 <= i < self.buf_entries().len() && 0 <= j < self.buf_entries()[
                            i].1.entries().len() ==> self.buf_entry_ok(
                            future,
                            states0,
                            queue,
                            i,
                            j,
                        ),
                    forall|i: int, j: int|
                        #![trigger self.img_entries()[i].1.entries()[j]]
                        0 <= i < ii && 0 <= j < self.img_entries()[i].1.entries().len()
                            ==> self.img_entry_ok(future, states0, queue, i, j),
                    forall|j: int|
                        #![trigger self.img_entries()[ii as int].1.entries()[j]]
                        0 <= j < ei ==> self.img_entry_ok(future, states0, queue, ii as int, j),
                decreases n - ei,
            {
                let e = self.images2[ii].1.entry(ei);
                let rg = DeviceRange { start: e.start, end: e.end };
                let fail: Option<AccessError> = match future.check_image_access(
                    id,
                    rg,
                    e.value.exclusive,
                    e.value.initial_layout,
                    queue,
                ) {
                    Ok(_) => None,
                    Err(AccessCheckError::Denied(err)) => Some(err),
                    Err(AccessCheckError::Unknown) => {
                        match states.check_image(id, rg, e.value.exclusive, e.value.initial_layout) {
                            Ok(_) => None,
                            Err(err) => Some(err),
                        }
                    },
                };
                if let Some(err) = fail {
                    let fu = e.value.first_use;
                    let r = Err(
                        CommandBufferExecError::AccessError {
                            error: err,
                            command_name: self.commands[fu.command_index].name(),
                            command_param: fu.name,
                            command_offset: fu.command_index,
                        },
                    );
                    proof {
                        assert(!self.img_entry_ok(future, states0, queue, ii as int, ei as int));
                    }
                    return r;
                }
                ei = ei + 1;
            }
            ii = ii + 1;
        }
        // Phase two: every check passed; take the locks.
        self.acquire_locks(states);
        Ok(())
    }

    /// Takes the matching lock on every tracked range (phase two of
    /// [`SyncCommandBuffer::lock_submit`]).
    fn acquire_locks(&self, states: &mut ResourceStates)
        requires
            self.wf(),
            old(states).wf(),
            self.lock_headroom(*old(states)),
        ensures
            final(states).wf(),
            forall|b: u64, k: int|
                #![trigger final(states).buf_lock(b, k)]
                final(states).buf_lock(b, k) == (match self.buf_access(b, k) {
                    Some(st) => apply_buf_op(
                        SyncCommandBuffer::buf_lock_op(st),
                        old(states).buf_lock(b, k),
                    ),
                    None => old(states).buf_lock(b, k),
                }),
            forall|b: u64, k: int|
                #![trigger final(states).img_lock(b, k)]
                final(states).img_lock(b, k) == (match self.img_access(b, k) {
                    Some(st) => apply_img_op(
                        SyncCommandBuffer::img_lock_op(st),
                        old(states).img_lock(b, k),
                    ),
                    None => old(states).img_lock(b, k),
                }),
    {
        let ghost states0 = *old(states);
        let mut bi: usize = 0;
        while bi < self.buffers2.len()
            invariant
                self.wf(),
                states.wf(),
                states0 == *old(states),
                self.lock_headroom(states0),
                bi <= self.buf_entries().len(),
                forall|b: u64, k: int|
                    #![trigger states.buf_lock(b, k)]
                    states.buf_lock(b, k) == (if self.spec_has_buffer(b) && self.buf_idx(b) < bi
                        && self.buf_access(b, k) is Some {
                        apply_buf_op(
                            SyncCommandBuffer::buf_lock_op(self.buf_access(b, k)->0),
                            states0.buf_lock(b, k),
                        )
                    } else {
                        states0.buf_lock(b, k)
                    }),
                forall|b: u64, k: int|
                    #![trigger states.img_lock(b, k)]
                    states.img_lock(b, k) == states0.img_lock(b, k),
            decreases self.buf_entries().len() - bi,
        {
            let id = self.buffers2[bi].0;
            proof {
                self.lemma_buf_lookup(bi as int);
            }
            let ghost rm = self.buf_entries()[bi as int].1;
            let n = self.buffers2[bi].1.num_entries();
            let mut ei: usize = 0;
            while ei < n
                invariant
                    self.wf(),
                    states.wf(),
                    states0 == *old(states),
                    self.lock_headroom(states0),
                    bi < self.buf_entries().len(),
                    id == self.buf_entries()[bi as int].0,
                    self.spec_has_buffer(id),
                    self.buf_idx(id) == bi,
                    rm == self.buf_entries()[bi as int].1,
                    n == rm.entries().len(),
                    ei <= n,
                    forall|b: u64, k: int|
                        #![trigger states.buf_lock(b, k)]
                        states.buf_lock(b, k) == (if b == id && rm.covers(k) && rm.index_of(k)
                            < ei {
                            apply_buf_op(
                                SyncCommandBuffer::buf_lock_op(self.buf_access(b, k)->0),
                                states0.buf_lock(b, k),
                            )
                        } else if b != id && self.spec_has_buffer(b) && self.buf_idx(b) < bi
                            && self.buf_access(b, k) is Some {
                            apply_buf_op(
                                SyncCommandBuffer::buf_lock_op(self.buf_access(b, k)->0),
                                states0.buf_lock(b, k),
                            )
                        } else {
                            states0.buf_lock(b, k)
                        }),
                    forall|b: u64, k: int|
                        #![trigger states.img_lock(b, k)]
                        states.img_lock(b, k) == states0.img_lock(b, k),
                decreases n - ei,
            {
                let e = self.buffers2[bi].1.entry(ei);
                let rg = DeviceRange { start: e.start, end: e.end };
                let op = if e.value.exclusive {
                    BufLockOp::AcquireWrite
                } else {
                    BufLockOp::AcquireRead
                };
                proof {
                    assert(rm.wf());
                    assert(rg.wf());
                    assert forall|k: int| rg.spec_contains(k) implies self.buf_access(id, k)
                        == Some(e.value) && states.buf_lock(id, k) == states0.buf_lock(id, k)
                        && crate::locks::buf_op_enabled(op, states.buf_lock(id, k)) by {
                        rm.lemma_at_entry(ei as int, k);
                        assert(self.buf_access(id, k) == Some(e.value));
                    }
                }
                states.update_buffer(id, rg, op);
                proof {
                    assert forall|b: u64, k: int| #![trigger states.buf_lock(b, k)]
                        states.buf_lock(b, k) == (if b == id && rm.covers(k) && rm.index_of(k) < ei
                        + 1 {
                        apply_buf_op(
                            SyncCommandBuffer::buf_lock_op(self.buf_access(b, k)->0),
                            states0.buf_lock(b, k),
                        )
                    } else if b != id && self.spec_has_buffer(b) && self.buf_idx(b) < bi
                        && self.buf_access(b, k) is Some {
                        apply_buf_op(
                            SyncCommandBuffer::buf_lock_op(self.buf_access(b, k)->0),
                            states0.buf_lock(b, k),
                        )
                    } else {
                        states0.buf_lock(b, k)
                    }) by {
                        if b == id && rg.spec_contains(k) {
                            rm.lemma_at_entry(ei as int, k);
                        } else if b == id && rm.covers(k) && rm.index_of(k) < ei {
                            rm.lemma_at_entry(rm.index_of(k), k);
                            assert(!rg.spec_contains(k));
                        }
                    }
                }
                ei = ei + 1;
            }
            proof {
                assert forall|b: u64, k: int| #![trigger states.buf_lock(b, k)]
                    states.buf_lock(b, k) == (if self.spec_has_buffer(b) && self.buf_idx(b) < bi
                    + 1 && self.buf_access(b, k) is Some {
                    apply_buf_op(
                        SyncCommandBuffer::buf_lock_op(self.buf_access(b, k)->0),
                        states0.buf_lock(b, k),
                    )
                } else {
                    states0.buf_lock(b, k)
                }) by {
                    if b == id {
                        if self.buf_access(b, k) is Some {
                            assert(rm.covers(k) && rm.index_of(k) < n);
                        } else {
                            assert(!rm.covers(k));
                        }
                    }
                }
            }
            bi = bi + 1;
        }
        let ghost after_bufs = *states;
        let mut ii: usize = 0;
        while ii < self.images2.len()
            invariant
                self.wf(),
                states.wf(),
                states0 == *old(states),
                self.lock_headroom(states0),
                ii <= self.img_entries().len(),
                forall|b: u64, k: int|
                    #![trigger states.buf_lock(b, k)]
                    states.buf_lock(b, k) == after_bufs.buf_lock(b, k),
                forall|b: u64, k: int|
                    #![trigger after_bufs.buf_lock(b, k)]
                    after_bufs.buf_lock(b, k) == (match self.buf_access(b, k) {
                        Some(st) => apply_buf_op(
                            SyncCommandBuffer::buf_lock_op(st),
                            states0.buf_lock(b, k),
                        ),
                        None => states0.buf_lock(b, k),
                    }),
                forall|b: u64, k: int|
                    #![trigger states.img_lock(b, k)]
                    states.img_lock(b, k) == (if self.spec_has_image(b) && self.img_idx(b) < ii
                        && self.img_access(b, k) is Some {
                        apply_img_op(
                            SyncCommandBuffer::img_lock_op(self.img_access(b, k)->0),
                            states0.img_lock(b, k),
                        )
                    } else {
                        states0.img_lock(b, k)
                    }),
            decreases self.img_entries().len() - ii,
        {
            let id = self.images2[ii].0;
            proof {
                self.lemma_img_lookup(ii as int);
            }
            let ghost rm = self.img_entries()[ii as int].1;
            let n = self.images2[ii].1.num_entries();
            let mut ei: usize = 0;
            while ei < n
                invariant
                    self.wf(),
                    states.wf(),
                    states0 == *old(states),
                    self.lock_headroom(states0),
                    ii < self.img_entries().len(),
                    id == self.img_entries()[ii as int].0,
                    self.spec_has_image(id),
                    self.img_idx(id) == ii,
                    rm == self.img_entries()[ii as int].1,
                    n == rm.entries().len(),
                    ei <= n,
                    forall|b: u64, k: int|
                        #![trigger states.buf_lock(b, k)]
                        states.buf_lock(b, k) == after_bufs.buf_lock(b, k),
                    forall|b: u64, k: int|
                        #![trigger states.img_lock(b, k)]
                        states.img_lock(b, k) == (if b == id && rm.covers(k) && rm.index_of(k)
                            < ei {
                            apply_img_op(
                                SyncCommandBuffer::img_lock_op(self.img_access(b, k)->0),
                                states0.img_lock(b, k),
                            )
                        } else if b != id && self.spec_has_image(b) && self.img_idx(b) < ii
                            && self.img_access(b, k) is Some {
                            apply_img_op(
                                SyncCommandBuffer::img_lock_op(self.img_access(b, k)->0),
                                states0.img_lock(b, k),
                            )
                        } else {
                            states0.img_lock(b, k)
                        }),
                decreases n - ei,
            {
                let e = self.images2[ii].1.entry(ei);
                let rg = DeviceRange { start: e.start, end: e.end };
                let op = if e.value.exclusive {
                    ImgLockOp::AcquireWrite(e.value.final_layout)
                } else {
                    ImgLockOp::AcquireRead
                };
                proof {
                    assert(rm.wf());
                    assert(rg.wf());
                    assert forall|k: int| rg.spec_contains(k) implies self.img_access(id, k)
                        == Some(e.value) && states.img_lock(id, k) == states0.img_lock(id, k)
                        && crate::locks::img_op_enabled(op, states.img_lock(id, k)) by {
                        rm.lemma_at_entry(ei as int, k);
                        assert(self.img_access(id, k) == Some(e.value));
                    }
                }
                states.update_image(id, rg, op);
                proof {
                    assert forall|b: u64, k: int| #![trigger states.img_lock(b, k)]
                        states.img_lock(b, k) == (if b == id && rm.covers(k) && rm.index_of(k) < ei
                        + 1 {
                        apply_img_op(
                            SyncCommandBuffer::img_lock_op(self.img_access(b, k)->0),
                            states0.img_lock(b, k),
                        )
                    } else if b != id && self.spec_has_image(b) && self.img_idx(b) < ii
                        && self.img_access(b, k) is Some {
                        apply_img_op(
                            SyncCommandBuffer::img_lock_op(self.img_access(b, k)->0),
                            states0.img_lock(b, k),
                        )
                    } else {
                        states0.img_lock(b, k)
                    }) by {
                        if b == id && rg.spec_contains(k) {
                            rm.lemma_at_entry(ei as int, k);
                        } else if b == id && rm.covers(k) && rm.index_of(k) < ei {
                            rm.lemma_at_entry(rm.index_of(k), k);
                            assert(!rg.spec_contains(k));
                        }
                    }
                }
                ei = ei + 1;
            }
            proof {
                assert forall|b: u64, k: int| #![trigger states.img_lock(b, k)]
                    states.img_lock(b, k) == (if self.spec_has_image(b) && self.img_idx(b) < ii + 1
                    && self.img_access(b, k) is Some {
                    apply_img_op(
                        SyncCommandBuffer::img_lock_op(self.img_access(b, k)->0),
                        states0.img_lock(b, k),
                    )
                } else {
                    states0.img_lock(b, k)
                }) by {
                    if b == id {
                        if self.img_access(b, k) is Some {
                            assert(rm.covers(k) && rm.index_of(k) < n);
                        } else {
                            assert(!rm.covers(k));
                        }
                    }
                }
            }
            ii = ii + 1;
        }
    }

    /// The lock operation `unlock` applies at a tracked buffer point.
    pub open spec fn buf_release_op(st: BufferRangeState) -> BufLockOp {
        if st.exclusive {
            BufLockOp::ReleaseWrite
        } else {
            BufLockOp::ReleaseRead
        }
    }

    /// The lock operation `unlock` applies at a tracked image point.
    pub open spec fn img_release_op(st: ImageRangeState) -> ImgLockOp {
        if st.exclusive {
            ImgLockOp::ReleaseWrite
        } else {
            ImgLockOp::ReleaseRead
        }
    }

    /// Releases every lock taken by a prior successful
    /// [`SyncCommandBuffer::lock_submit`]: one read lock per shared tracked
    /// range, one write lock per exclusive one.  The caller must hold those
    /// locks; image layouts are left as they are.
    pub fn unlock(&self, states: &mut ResourceStates)
        requires
            self.wf(),
            old(states).wf(),
            self.locks_held(*old(states)),
        ensures
            final(states).wf(),
            forall|b: u64, k: int|
                #![trigger final(states).buf_lock(b, k)]
                final(states).buf_lock(b, k) == (match self.buf_access(b, k) {
                    Some(st) => apply_buf_op(
                        SyncCommandBuffer::buf_release_op(st),
                        old(states).buf_lock(b, k),
                    ),
                    None => old(states).buf_lock(b, k),
                }),
            forall|b: u64, k: int|
                #![trigger final(states).img_lock(b, k)]
                final(states).img_lock(b, k) == (match self.img_access(b, k) {
                    Some(st) => apply_img_op(
                        SyncCommandBuffer::img_release_op(st),
                        old(states).img_lock(b, k),
                    ),
                    None => old(states).img_lock(b, k),
                }),
    {
        let ghost states0 = *old(states);
        let mut bi: usize = 0;
        while bi < self.buffers2.len()
            invariant
                self.wf(),
                states.wf(),
                states0 == *old(states),
                self.locks_held(states0),
                bi <= self.buf_entries().len(),
                forall|b: u64, k: int|
                    #![trigger states.buf_lock(b, k)]
                    states.buf_lock(b, k) == (if self.spec_has_buffer(b) && self.buf_idx(b) < bi
                        && self.buf_access(b, k) is Some {
                        apply_buf_op(
                            SyncCommandBuffer::buf_release_op(self.buf_access(b, k)->0),
                            states0.buf_lock(b, k),
                        )
                    } else {
                        states0.buf_lock(b, k)
                    }),
                forall|b: u64, k: int|
                    #![trigger states.img_lock(b, k)]
                    states.img_lock(b, k) == states0.img_lock(b, k),
            decreases self.buf_entries().len() - bi,
        {
            let id = self.buffers2[bi].0;
            proof {
                self.lemma_buf_lookup(bi as int);
            }
            let ghost rm = self.buf_entries()[bi as int].1;
            let n = self.buffers2[bi].1.num_entries();
            let mut ei: usize = 0;
            while ei < n
                invariant
                    self.wf(),
                    states.wf(),
                    states0 == *old(states),
                    self.locks_held(states0),
                    bi < self.buf_entries().len(),
                    id == self.buf_entries()[bi as int].0,
                    self.spec_has_buffer(id),
                    self.buf_idx(id) == bi,
                    rm == self.buf_entries()[bi as int].1,
                    n == rm.entries().len(),
                    ei <= n,
                    forall|b: u64, k: int|
                        #![trigger states.buf_lock(b, k)]
                        states.buf_lock(b, k) == (if b == id && rm.covers(k) && rm.index_of(k)
                            < ei {
                            apply_buf_op(
                                SyncCommandBuffer::buf_release_op(self.buf_access(b, k)->0),
                                states0.buf_lock(b, k),
                            )
                        } else if b != id && self.spec_has_buffer(b) && self.buf_idx(b) < bi
                            && self.buf_access(b, k) is Some {
                            apply_buf_op(
                                SyncCommandBuffer::buf_release_op(self.buf_access(b, k)->0),
                                states0.buf_lock(b, k),
                            )
                        } else {
                            states0.buf_lock(b, k)
                        }),
                    forall|b: u64, k: int|
                        #![trigger states.img_lock(b, k)]
                        states.img_lock(b, k) == states0.img_lock(b, k),
                decreases n - ei,
            {
                let e = self.buffers2[bi].1.entry(ei);
                let rg = DeviceRange { start: e.start, end: e.end };
                let op = if e.value.exclusive {
                    BufLockOp::ReleaseWrite
                } else {
                    BufLockOp::ReleaseRead
                };
                proof {
                    assert(rm.wf());
                    assert(rg.wf());
                    assert forall|k: int| rg.spec_contains(k) implies self.buf_access(id, k)
                        == Some(e.value) && states.buf_lock(id, k) == states0.buf_lock(id, k)
                        && crate::locks::buf_op_enabled(op, states.buf_lock(id, k)) by {
                        rm.lemma_at_entry(ei as int, k);
                        assert(self.buf_access(id, k) == Some(e.value));
                    }
                }
                states.update_buffer(id, rg, op);
                proof {
                    assert forall|b: u64, k: int| #![trigger states.buf_lock(b, k)]
                        states.buf_lock(b, k) == (if b == id && rm.covers(k) && rm.index_of(k) < ei
                        + 1 {
                        apply_buf_op(
                            SyncCommandBuffer::buf_release_op(self.buf_access(b, k)->0),
                            states0.buf_lock(b, k),
                        )
                    } else if b != id && self.spec_has_buffer(b) && self.buf_idx(b) < bi
                        && self.buf_access(b, k) is Some {
                        apply_buf_op(
                            SyncCommandBuffer::buf_release_op(self.buf_access(b, k)->0),
                            states0.buf_lock(b, k),
                        )
                    } else {
                        states0.buf_lock(b, k)
                    }) by {
                        if b == id && rg.spec_contains(k) {
                            rm.lemma_at_entry(ei as int, k);
                        } else if b == id && rm.covers(k) && rm.index_of(k) < ei {
                            rm.lemma_at_entry(rm.index_of(k), k);
                            assert(!rg.spec_contains(k));
                        }
                    }
                }
                ei = ei + 1;
            }
            proof {
                assert forall|b: u64, k: int| #![trigger states.buf_lock(b, k)]
                    states.buf_lock(b, k) == (if self.spec_has_buffer(b) && self.buf_idx(b) < bi
                    + 1 && self.buf_access(b, k) is Some {
                    apply_buf_op(
                        SyncCommandBuffer::buf_release_op(self.buf_access(b, k)->0),
                        states0.buf_lock(b, k),
                    )
                } else {
                    states0.buf_lock(b, k)
                }) by {
                    if b == id {
                        if self.buf_access(b, k) is Some {
                            assert(rm.covers(k) && rm.index_of(k) < n);
                        } else {
                            assert(!rm.covers(k));
                        }
                    }
                }
            }
            bi = bi + 1;
        }
        let ghost after_bufs = *states;
        let mut ii: usize = 0;
        while ii < self.images2.len()
            invariant
                self.wf(),
                states.wf(),
                states0 == *old(states),
                self.locks_held(states0),
                ii <= self.img_entries().len(),
                forall|b: u64, k: int|
                    #![trigger states.buf_lock(b, k)]
                    states.buf_lock(b, k) == after_bufs.buf_lock(b, k),
                forall|b: u64, k: int|
                    #![trigger after_bufs.buf_lock(b, k)]
                    after_bufs.buf_lock(b, k) == (match self.buf_access(b, k) {
                        Some(st) => apply_buf_op(
                            SyncCommandBuffer::buf_release_op(st),
                            states0.buf_lock(b, k),
                        ),
                        None => states0.buf_lock(b, k),
                    }),
                forall|b: u64, k: int|
                    #![trigger states.img_lock(b, k)]
                    states.img_lock(b, k) == (if self.spec_has_image(b) && self.img_idx(b) < ii
                        && self.img_access(b, k) is Some {
                        apply_img_op(
                            SyncCommandBuffer::img_release_op(self.img_access(b, k)->0),
                            states0.img_lock(b, k),
                        )
                    } else {
                        states0.img_lock(b, k)
                    }),
            decreases self.img_entries().len() - ii,
        {
            let id = self.images2[ii].0;
            proof {
                self.lemma_img_lookup(ii as int);
            }
            let ghost rm = self.img_entries()[ii as int].1;
            let n = self.images2[ii].1.num_entries();
            let mut ei: usize = 0;
            while ei < n
                invariant
                    self.wf(),
                    states.wf(),
                    states0 == *old(states),
                    self.locks_held(states0),
                    ii < self.img_entries().len(),
                    id == self.img_entries()[ii as int].0,
                    self.spec_has_image(id),
                    self.img_idx(id) == ii,
                    rm == self.img_entries()[ii as int].1,
                    n == rm.entries().len(),
                    ei <= n,
                    forall|b: u64, k: int|
                        #![trigger states.buf_lock(b, k)]
                        states.buf_lock(b, k) == after_bufs.buf_lock(b, k),
                    forall|b: u64, k: int|
                        #![trigger states.img_lock(b, k)]
                        states.img_lock(b, k) == (if b == id && rm.covers(k) && rm.index_of(k)
                            < ei {
                            apply_img_op(
                                SyncCommandBuffer::img_release_op(self.img_access(b, k)->0),
                                states0.img_lock(b, k),
                            )
                        } else if b != id && self.spec_has_image(b) && self.img_idx(b) < ii
                            && self.img_access(b, k) is Some {
                            apply_img_op(
                                SyncCommandBuffer::img_release_op(self.img_access(b, k)->0),
                                states0.img_lock(b, k),
                            )
                        } else {
                            states0.img_lock(b, k)
                        }),
                decreases n - ei,
            {
                let e = self.images2[ii].1.entry(ei);
                let rg = DeviceRange { start: e.start, end: e.end };
                let op = if e.value.exclusive {
                    ImgLockOp::ReleaseWrite
                } else {
                    ImgLockOp::ReleaseRead
                };
                proof {
                    assert(rm.wf());
                    assert(rg.wf());
                    assert forall|k: int| rg.spec_contains(k) implies self.img_access(id, k)
                        == Some(e.value) && states.img_lock(id, k) == states0.img_lock(id, k)
                        && crate::locks::img_op_enabled(op, states.img_lock(id, k)) by {
                        rm.lemma_at_entry(ei as int, k);
                        assert(self.img_access(id, k) == Some(e.value));
                    }
                }
                states.update_image(id, rg, op);
                proof {
                    assert forall|b: u64, k: int| #![trigger states.img_lock(b, k)]
                        states.img_lock(b, k) == (if b == id && rm.covers(k) && rm.index_of(k) < ei
                        + 1 {
                        apply_img_op(
                            SyncCommandBuffer::img_release_op(self.img_access(b, k)->0),
                            states0.img_lock(b, k),
                        )
                    } else if b != id && self.spec_has_image(b) && self.img_idx(b) < ii
                        && self.img_access(b, k) is Some {
                        apply_img_op(
                            SyncCommandBuffer::img_release_op(self.img_access(b, k)->0),
                            states0.img_lock(b, k),
                        )
                    } else {
                        states0.img_lock(b, k)
                    }) by {
                        if b == id && rg.spec_contains(k) {
                            rm.lemma_at_entry(ei as int, k);
                        } else if b == id && rm.covers(k) && rm.index_of(k) < ei {
                            rm.lemma_at_entry(rm.index_of(k), k);
                            assert(!rg.spec_contains(k));
                        }
                    }
                }
                ei = ei + 1;
            }
            proof {
                assert forall|b: u64, k: int| #![trigger states.img_lock(b, k)]
                    states.img_lock(b, k) == (if self.spec_has_image(b) && self.img_idx(b) < ii + 1
                    && self.img_access(b, k) is Some {
                    apply_img_op(
                        SyncCommandBuffer::img_release_op(self.img_access(b, k)->0),
                        states0.img_lock(b, k),
                    )
                } else {
                    states0.img_lock(b, k)
                }) by {
                    if b == id {
                        if self.img_access(b, k) is Some {
                            assert(rm.covers(k) && rm.index_of(k) < n);
                        } else {
                            assert(!rm.covers(k));
                        }
                    }
                }
            }
            ii = ii + 1;
        }
    }

    /// The number of distinct buffers referenced.
    pub fn num_buffers(&self) -> (n: usize)
        ensures
            n == self.spec_buffers().len(),
    {
        self.buffers.len()
    }

    /// The distinct buffer at position `index` of the enumeration: handle,
    /// covering range, and accumulated access.
    pub fn buffer(&self, index: usize) -> (r: Option<(u64, DeviceRange, PipelineMemoryAccess)>)
        ensures
            index < self.spec_buffers().len() ==> r == Some(self.spec_buffers()[index as int]),
            index >= self.spec_buffers().len() ==> r is None,
    {
        if index < self.buffers.len() {
            Some(self.buffers[index])
        } else {
            None
        }
    }

    /// The number of distinct images referenced.
    pub fn num_images(&self) -> (n: usize)
        ensures
            n == self.spec_images().len(),
    {
        self.images.len()
    }

    /// The distinct image at position `index` of the enumeration: handle,
    /// covering range, accumulated access, and start/end layouts.
    pub fn image(&self, index: usize) -> (r: Option<
        (u64, DeviceRange, PipelineMemoryAccess, ImageLayout, ImageLayout),
    >)
        ensures
            index < self.spec_images().len() ==> r == Some(self.spec_images()[index as int]),
            index >= self.spec_images().len() ==> r is None,
    {
        if index < self.images.len() {
            Some(self.images[index])
        } else {
            None
        }
    }
}

} // verus!
