//! The library's cross-cutting guarantees, stated and proved once.
//!
//! Each proof function here relates states before and after calls whose
//! contracts are stated elsewhere: its preconditions are exactly those
//! contracts, so a caller that made the calls holds the preconditions for
//! free, and the conclusion is the guarantee itself.

use crate::builder::{
    SyncCommandBufferBuilder, buf_hazard_unflushed, buf_needs_barrier, decls_buf_tracked,
    flush_boundaries, next_buf_state, transfer_read_access, transfer_write_access,
};
use crate::errors::AccessCheckError;
use crate::flags::{DeviceRange, PipelineMemoryAccess};
use crate::future::GpuFuture;
use crate::locks::{ResourceStates, apply_buf_op};
use crate::resource::{ParamName, Resource};
use crate::synced::SyncCommandBuffer;
use vstd::prelude::*;

verus! {

/// Law: two read-only accesses to the same resource range recorded
/// consecutively produce zero barriers.
///
/// `b1` tracks every point of `src_range` of `buffer` as last touched by a
/// shared (read) access; `b2` is `b1` after recording a copy that reads that
/// range (into an untracked destination), related by the contract of
/// `SyncCommandBufferBuilder::copy_buffer`.  No batch boundary and no
/// barrier is added.
pub proof fn lemma_read_read_no_barrier(
    b1: SyncCommandBufferBuilder,
    b2: SyncCommandBufferBuilder,
    buffer: u64,
    src_range: DeviceRange,
    dst_buffer: u64,
    dst_range: DeviceRange,
)
    requires
        src_range.wf(),
        dst_range.wf(),
        buffer != dst_buffer,
        forall|k: int|
            src_range.spec_contains(k) ==> (#[trigger] b1.buf_tracked(buffer, k)) is Some
                && !b1.buf_tracked(buffer, k)->0.exclusive,
        forall|k: int|
            dst_range.spec_contains(k) ==> (#[trigger] b1.buf_tracked(dst_buffer, k)) is None,
        // the flush clauses of `copy_buffer`'s contract
        (exists|k: int|
            src_range.spec_contains(k) && buf_hazard_unflushed(
                #[trigger] b1.buf_tracked(buffer, k),
                b1.spec_commands().len() as usize,
                transfer_read_access(),
                b1.spec_first_unflushed(),
            )) ==> b2.spec_barriers() == flush_boundaries(
            b1.spec_barriers(),
            b1.spec_first_unflushed(),
            b1.spec_commands().len() as usize,
        ),
        !(exists|k: int|
            src_range.spec_contains(k) && buf_hazard_unflushed(
                #[trigger] b1.buf_tracked(buffer, k),
                b1.spec_commands().len() as usize,
                transfer_read_access(),
                b1.spec_first_unflushed(),
            )) ==> b2.spec_barriers() == b1.spec_barriers() && b2.spec_emitted()
            == b1.spec_emitted(),
    ensures
        b2.spec_barriers() == b1.spec_barriers(),
        b2.spec_emitted() == b1.spec_emitted(),
{
    let idx = b1.spec_commands().len() as usize;
    assert(!(exists|k: int|
        src_range.spec_contains(k) && buf_hazard_unflushed(
            #[trigger] b1.buf_tracked(buffer, k),
            idx,
            transfer_read_access(),
            b1.spec_first_unflushed(),
        ))) by {
        if exists|k: int|
            src_range.spec_contains(k) && buf_hazard_unflushed(
                #[trigger] b1.buf_tracked(buffer, k),
                idx,
                transfer_read_access(),
                b1.spec_first_unflushed(),
            ) {
            let k0 = choose|k: int|
                src_range.spec_contains(k) && buf_hazard_unflushed(
                    #[trigger] b1.buf_tracked(buffer, k),
                    idx,
                    transfer_read_access(),
                    b1.spec_first_unflushed(),
                );
            // a hazard needs a write on one side; both sides read
            assert(!b1.buf_tracked(buffer, k0)->0.exclusive);
            assert(!transfer_read_access().exclusive);
        }
    }
}

/// Law: a write followed by a read of an overlapping range produces exactly
/// one barrier, whose source scopes are the write's stages and accesses and
/// whose destination scopes are the read's.
///
/// Starting from a fresh builder `b0`, `b1` is `b0` after a `fill_buffer`
/// write of `w_range` of `buffer`, `b2` is `b1` after a `copy_buffer` that
/// reads `r_range` of `buffer` (overlapping `w_range`, into an untracked
/// destination), and `cb` is the built result — each step related by the
/// respective contract.  Exactly one pipeline barrier is emitted, standing
/// between the two commands, and at every overlapping point it records the
/// write as source and the read as destination.
pub proof fn lemma_write_read_one_barrier(
    b0: SyncCommandBufferBuilder,
    b1: SyncCommandBufferBuilder,
    b2: SyncCommandBufferBuilder,
    cb: SyncCommandBuffer,
    buffer: u64,
    w_range: DeviceRange,
    r_range: DeviceRange,
    dst_buffer: u64,
    dst_range: DeviceRange,
)
    requires
        w_range.wf(),
        r_range.wf(),
        dst_range.wf(),
        buffer != dst_buffer,
        w_range.spec_overlaps(r_range),
        r_range.start >= w_range.start,
        r_range.end <= w_range.end,
        // b0 is fresh
        b0.spec_commands().len() == 0,
        b0.spec_barriers().len() == 0,
        b0.spec_emitted().len() == 0,
        b0.spec_first_unflushed() == 0,
        b0.spec_pending().spec_is_empty(),
        forall|k: int| (#[trigger] b0.buf_tracked(buffer, k)) is None,
        forall|k: int| (#[trigger] b0.buf_tracked(dst_buffer, k)) is None,
        // b1 is b0 after fill_buffer(buffer, w_range, _): tracked and flush
        // clauses of its contract
        b1.spec_commands().len() == 1,
        forall|k: int|
            w_range.spec_contains(k) ==> #[trigger] b1.buf_tracked(buffer, k) == Some(
                next_buf_state(b0.buf_tracked(buffer, k), 0, ParamName::DstBuffer, transfer_write_access()),
            ),
        forall|k: int|
            !(buffer == dst_buffer && w_range.spec_contains(k)) ==> #[trigger] b1.buf_tracked(
                dst_buffer,
                k,
            ) == b0.buf_tracked(dst_buffer, k),
        !(exists|k: int|
            w_range.spec_contains(k) && buf_hazard_unflushed(
                #[trigger] b0.buf_tracked(buffer, k),
                0,
                transfer_write_access(),
                0,
            )) ==> b1.spec_first_unflushed() == b0.spec_first_unflushed() && b1.spec_barriers()
            == b0.spec_barriers() && b1.spec_emitted() == b0.spec_emitted(),
        // the fill contract's no-hazard clause: the write was a first use,
        // so the prototype is untouched
        (forall|k: int|
            w_range.spec_contains(k) ==> !buf_needs_barrier(
                #[trigger] b0.buf_tracked(buffer, k),
                0,
                transfer_write_access(),
            )) ==> b1.spec_pending() == b0.spec_pending(),
        // b2 is b1 after copy_buffer(buffer, r_range, dst_buffer, dst_range):
        // the contract's flush and pending clauses under its guard
        b2.spec_commands().len() == 2,
        (exists|k: int|
            r_range.spec_contains(k) && buf_hazard_unflushed(
                #[trigger] b1.buf_tracked(buffer, k),
                1,
                transfer_read_access(),
                b1.spec_first_unflushed(),
            )) ==> b2.spec_first_unflushed() == 1 && b2.spec_barriers() == flush_boundaries(
            b1.spec_barriers(),
            b1.spec_first_unflushed(),
            1,
        ) && b2.spec_emitted() == (if b1.spec_pending().spec_is_empty() {
            b1.spec_emitted()
        } else {
            b1.spec_emitted().push(
                crate::barrier::EmittedBarrier {
                    position: b1.spec_first_unflushed(),
                    barrier: b1.spec_pending(),
                },
            )
        }),
        forall|k: int|
            #![trigger b2.spec_pending().buf_at(buffer, k)]
            r_range.spec_contains(k) && buf_needs_barrier(
                b1.buf_tracked(buffer, k),
                1,
                transfer_read_access(),
            ) ==> crate::builder::buf_barrier_records(
                b2.spec_pending().buf_at(buffer, k),
                b1.buf_tracked(buffer, k)->0,
                transfer_read_access(),
            ),
        // cb is b2 built: the emission clause of `build`'s contract
        cb.spec_barriers() == b2.spec_barriers(),
        cb.spec_emitted() == (if b2.spec_pending().spec_is_empty() {
            b2.spec_emitted()
        } else {
            b2.spec_emitted().push(
                crate::barrier::EmittedBarrier {
                    position: b2.spec_first_unflushed(),
                    barrier: b2.spec_pending(),
                },
            )
        }),
    ensures
        // exactly one pipeline barrier was emitted, in front of the read
        cb.spec_emitted().len() == 1,
        cb.spec_emitted()[0].position == 1,
        // one boundary between the two batches
        cb.spec_barriers() == seq![0usize, 1usize],
        // at every overlapping point the barrier goes from the write to the
        // read
        forall|k: int|
            r_range.spec_contains(k) ==> {
                let bar = cb.spec_emitted()[0].barrier.buf_at(buffer, k);
                &&& bar is Some
                &&& bar->0.src_stages == transfer_write_access().stages
                &&& bar->0.src_access == transfer_write_access().access
                &&& bar->0.dst_stages == transfer_read_access().stages
                &&& bar->0.dst_access == transfer_read_access().access
            },
{
    // The write was a first use: the fill owes no barrier, so the prototype
    // stays the fresh builder's empty one.
    assert(forall|k: int|
        w_range.spec_contains(k) ==> !buf_needs_barrier(
            #[trigger] b0.buf_tracked(buffer, k),
            0,
            transfer_write_access(),
        ));
    assert(b1.spec_pending() == b0.spec_pending());
    assert(b1.spec_pending().spec_is_empty());
    // The write was a first use: no hazard at the fill.
    assert(!(exists|k: int|
        w_range.spec_contains(k) && buf_hazard_unflushed(
            #[trigger] b0.buf_tracked(buffer, k),
            0,
            transfer_write_access(),
            0,
        ))) by {
        if exists|k: int|
            w_range.spec_contains(k) && buf_hazard_unflushed(
                #[trigger] b0.buf_tracked(buffer, k),
                0,
                transfer_write_access(),
                0,
            ) {
            let k0 = choose|k: int|
                w_range.spec_contains(k) && buf_hazard_unflushed(
                    #[trigger] b0.buf_tracked(buffer, k),
                    0,
                    transfer_write_access(),
                    0,
                );
        }
    }
    // The read meets the unflushed write: the batch is flushed.
    let kw = r_range.start as int;
    assert(w_range.spec_contains(kw));
    assert(b1.buf_tracked(buffer, kw) == Some(
        next_buf_state(b0.buf_tracked(buffer, kw), 0, ParamName::DstBuffer, transfer_write_access()),
    ));
    assert(b1.buf_tracked(buffer, kw)->0.exclusive);
    assert(b1.buf_tracked(buffer, kw)->0.last_command == 0);
    assert(buf_hazard_unflushed(
        b1.buf_tracked(buffer, kw),
        1,
        transfer_read_access(),
        b1.spec_first_unflushed(),
    ));
    assert(exists|k: int|
        r_range.spec_contains(k) && buf_hazard_unflushed(
            #[trigger] b1.buf_tracked(buffer, k),
            1,
            transfer_read_access(),
            b1.spec_first_unflushed(),
        ));
    assert(b2.spec_barriers() == flush_boundaries(seq![], 0, 1));
    assert(flush_boundaries(seq![], 0, 1) =~= seq![0usize, 1usize]);
    assert(b2.spec_emitted() == b1.spec_emitted());
    // The pending prototype now holds the one barrier; build emits it.
    assert forall|k: int| r_range.spec_contains(k) implies {
        let bar = b2.spec_pending().buf_at(buffer, k);
        &&& bar is Some
        &&& bar->0.src_stages == transfer_write_access().stages
        &&& bar->0.src_access == transfer_write_access().access
        &&& bar->0.dst_stages == transfer_read_access().stages
        &&& bar->0.dst_access == transfer_read_access().access
    } by {
        assert(w_range.spec_contains(k));
        assert(b1.buf_tracked(buffer, k) == Some(
            next_buf_state(b0.buf_tracked(buffer, k), 0, ParamName::DstBuffer, transfer_write_access()),
        ));
        assert(buf_needs_barrier(b1.buf_tracked(buffer, k), 1, transfer_read_access()));
    }
    assert(!b2.spec_pending().spec_is_empty()) by {
        assert(b2.spec_pending().buf_at(buffer, kw) is Some);
        if b2.spec_pending().buffer_barriers@.len() == 0 {
            assert(!b2.spec_pending().covers_buf(buffer, kw));
        }
    }
    assert(cb.spec_emitted() =~= b2.spec_emitted().push(
        crate::barrier::EmittedBarrier { position: 1, barrier: b2.spec_pending() },
    ));
    assert(cb.spec_emitted().len() == 1);
}

/// Law: two finalized command buffers that both take exclusive access to an
/// overlapping range of one buffer cannot both hold their locks; once the
/// first releases, the second may lock again.
///
/// With a future that knows nothing, live counters that can count one more
/// lock, and `s1` the state after `cb1`'s successful `lock_submit`: `cb2` is
/// not lockable in `s1`; after `cb1`'s `unlock` (state `s2`) every counter
/// is back where it started and `cb2` is lockable exactly as it was before.
/// Both command buffers track only buffers here: an image's live layout
/// keeps the value a released writer set, so an image pair expecting a
/// different layout would not relock.
pub proof fn lemma_exclusive_lock_conflict<F: GpuFuture>(
    cb1: SyncCommandBuffer,
    cb2: SyncCommandBuffer,
    future: &F,
    queue: u64,
    s0: ResourceStates,
    s1: ResourceStates,
    s2: ResourceStates,
    buffer: u64,
    k0: int,
)
    requires
        cb1.wf(),
        cb2.wf(),
        cb1.img_entries().len() == 0,
        cb2.img_entries().len() == 0,
        // the future knows nothing
        forall|b: u64, rg: DeviceRange, ex: bool|
            #[trigger] future.spec_check_buffer_access(b, rg, ex, queue) == Err::<
                Option<(crate::flags::PipelineStages, crate::flags::AccessFlags)>,
                AccessCheckError,
            >(AccessCheckError::Unknown),
        // both declare exclusive access to a common point
        cb1.buf_access(buffer, k0) is Some,
        cb1.buf_access(buffer, k0)->0.exclusive,
        cb2.buf_access(buffer, k0) is Some,
        cb2.buf_access(buffer, k0)->0.exclusive,
        // the live counters have headroom for one more lock (a machine
        // limit), and the second buffer could lock before the first did
        cb1.lock_headroom(s0),
        cb2.lockable(future, s0, queue),
        // s1 is s0 after cb1's successful lock_submit
        forall|b: u64, k: int|
            #![trigger s1.buf_lock(b, k)]
            s1.buf_lock(b, k) == (match cb1.buf_access(b, k) {
                Some(st) => apply_buf_op(SyncCommandBuffer::buf_lock_op(st), s0.buf_lock(b, k)),
                None => s0.buf_lock(b, k),
            }),
        // s2 is s1 after cb1's unlock
        forall|b: u64, k: int|
            #![trigger s2.buf_lock(b, k)]
            s2.buf_lock(b, k) == (match cb1.buf_access(b, k) {
                Some(st) => apply_buf_op(SyncCommandBuffer::buf_release_op(st), s1.buf_lock(b, k)),
                None => s1.buf_lock(b, k),
            }),
    ensures
        !cb2.lockable(future, s1, queue),
        forall|b: u64, k: int| #[trigger] s2.buf_lock(b, k) == s0.buf_lock(b, k),
        cb2.lockable(future, s2, queue),
{
    // cb2's entry holding the common point fails the live check in s1.
    let i2 = cb2.buf_idx(buffer);
    assert(cb2.spec_has_buffer(buffer));
    assert(0 <= i2 < cb2.buf_entries().len());
    let rm2 = cb2.buf_entries()[i2].1;
    assert(rm2.at(k0) is Some);
    let j2 = rm2.index_of(k0);
    rm2.lemma_at_entry(j2, k0);
    assert(s1.buf_lock(buffer, k0).writers >= 1) by {
        assert(cb1.buf_access(buffer, k0)->0.exclusive);
        assert(s0.buf_lock(buffer, k0).writers < u64::MAX);
    }
    let e2 = rm2.entries()[j2];
    let rg2 = DeviceRange { start: e2.start, end: e2.end };
    assert(!cb2.buf_entry_ok(future, s1, queue, i2, j2)) by {
        assert(rg2.spec_contains(k0));
        assert(!s1.spec_buf_lockable(buffer, rg2, e2.value.exclusive)) by {
            assert(s1.buf_lock(buffer, k0).writers != 0);
        }
    }
    assert(!cb2.lockable(future, s1, queue)) by {
        assert(0 <= j2 < cb2.buf_entries()[i2].1.entries().len());
        assert(cb2.buf_entries()[i2].1.entries()[j2] == e2);
    }
    // Lock then unlock round-trips every counter: the acquire had headroom,
    // so the release undoes it exactly.
    assert forall|b: u64, k: int| #[trigger] s2.buf_lock(b, k) == s0.buf_lock(b, k) by {
        match cb1.buf_access(b, k) {
            Some(st) => {
                assert(s0.buf_lock(b, k).readers < u64::MAX && s0.buf_lock(b, k).writers
                    < u64::MAX);
            },
            None => {},
        }
    }
    // With every counter back where it was, whatever could lock before can
    // lock again.
    assert forall|i: int, j: int|
        #![trigger cb2.buf_entries()[i].1.entries()[j]]
        0 <= i < cb2.buf_entries().len() && 0 <= j < cb2.buf_entries()[
            i].1.entries().len() implies cb2.buf_entry_ok(future, s2, queue, i, j) by {
        let id = cb2.buf_entries()[i].0;
        let e = cb2.buf_entries()[i].1.entries()[j];
        let rg = DeviceRange { start: e.start, end: e.end };
        assert(future.spec_check_buffer_access(id, rg, e.value.exclusive, queue) == Err::<
            Option<(crate::flags::PipelineStages, crate::flags::AccessFlags)>,
            AccessCheckError,
        >(AccessCheckError::Unknown));
        assert(cb2.buf_entry_ok(future, s0, queue, i, j));
        assert(s2.spec_buf_lockable(id, rg, e.value.exclusive)) by {
            assert(s0.spec_buf_lockable(id, rg, e.value.exclusive));
            assert(forall|k: int|
                rg.spec_contains(k) ==> (#[trigger] s2.buf_lock(id, k)) == s0.buf_lock(id, k));
        }
    }
}

/// The single-declaration list of one batch writing `range` of `buffer`.
pub open spec fn single_write_decl(
    buffer: u64,
    range: DeviceRange,
    memory: PipelineMemoryAccess,
) -> Seq<Resource> {
    seq![Resource::Buffer { buffer, range, memory }]
}

/// The declaration list of one combined batch writing `range` of `buffer`
/// twice.
pub open spec fn twin_write_decls(
    buffer: u64,
    range: DeviceRange,
    memory: PipelineMemoryAccess,
) -> Seq<Resource> {
    seq![
        Resource::Buffer { buffer, range, memory },
        Resource::Buffer { buffer, range, memory },
    ]
}

/// Law: two secondary command buffers that both write the same buffer,
/// recorded through two separate execute batches, produce one barrier per
/// batch boundary separating the conflicting writes: the stream splits into
/// the batches `[0, 1]` with one pipeline barrier between them, still
/// pending until build emits it.
///
/// `b0` is a fresh builder; `b1` is `b0` after one single-declaration
/// execute batch writing `range` of `buffer`; `b2` is `b1` after a second
/// identical batch — each step related by the contract of
/// `SyncCommandBufferBuilderExecuteCommands::submit`.
pub proof fn lemma_separate_batches_one_boundary(
    b0: SyncCommandBufferBuilder,
    b1: SyncCommandBufferBuilder,
    b2: SyncCommandBufferBuilder,
    buffer: u64,
    range: DeviceRange,
    memory: PipelineMemoryAccess,
)
    requires
        range.wf(),
        memory.exclusive,
        // b0 is fresh
        b0.spec_commands().len() == 0,
        b0.spec_barriers().len() == 0,
        b0.spec_emitted().len() == 0,
        b0.spec_first_unflushed() == 0,
        b0.spec_pending().spec_is_empty(),
        forall|k: int| (#[trigger] b0.buf_tracked(buffer, k)) is None,
        // b1 is b0 after the first batch: the submit contract's tracked fold,
        // single-declaration flush clauses and no-conflict clause
        b1.spec_commands().len() == 1,
        forall|k: int|
            #[trigger] b1.buf_tracked(buffer, k) == decls_buf_tracked(
                single_write_decl(buffer, range, memory),
                b0.buf_tracked(buffer, k),
                buffer,
                k,
                0,
            ),
        !(exists|k: int|
            range.spec_contains(k) && buf_hazard_unflushed(
                #[trigger] b0.buf_tracked(buffer, k),
                0,
                memory,
                b0.spec_first_unflushed(),
            )) ==> b1.spec_first_unflushed() == b0.spec_first_unflushed() && b1.spec_barriers()
            == b0.spec_barriers() && b1.spec_emitted() == b0.spec_emitted(),
        (forall|d: int, k: int|
            0 <= d < 1 ==> !(#[trigger] b0.decl_conflicts(
                single_write_decl(buffer, range, memory)[d],
                k,
                0,
            ))) ==> b1.spec_pending() == b0.spec_pending(),
        // b2 is b1 after the second batch: the same clauses one command later
        b2.spec_commands().len() == 2,
        (exists|k: int|
            range.spec_contains(k) && buf_hazard_unflushed(
                #[trigger] b1.buf_tracked(buffer, k),
                1,
                memory,
                b1.spec_first_unflushed(),
            )) ==> b2.spec_first_unflushed() == 1 && b2.spec_barriers() == flush_boundaries(
            b1.spec_barriers(),
            b1.spec_first_unflushed(),
            1,
        ) && b2.spec_emitted() == (if b1.spec_pending().spec_is_empty() {
            b1.spec_emitted()
        } else {
            b1.spec_emitted().push(
                crate::barrier::EmittedBarrier {
                    position: b1.spec_first_unflushed(),
                    barrier: b1.spec_pending(),
                },
            )
        }),
    ensures
        b2.spec_barriers() == seq![0usize, 1usize],
        b2.spec_emitted() == b0.spec_emitted(),
        b2.spec_first_unflushed() == 1,
{
    // The first batch meets no prior access at all.
    assert(!(exists|k: int|
        range.spec_contains(k) && buf_hazard_unflushed(
            #[trigger] b0.buf_tracked(buffer, k),
            0,
            memory,
            b0.spec_first_unflushed(),
        ))) by {
        if exists|k: int|
            range.spec_contains(k) && buf_hazard_unflushed(
                #[trigger] b0.buf_tracked(buffer, k),
                0,
                memory,
                b0.spec_first_unflushed(),
            ) {
            let k0 = choose|k: int|
                range.spec_contains(k) && buf_hazard_unflushed(
                    #[trigger] b0.buf_tracked(buffer, k),
                    0,
                    memory,
                    b0.spec_first_unflushed(),
                );
        }
    }
    assert(b1.spec_pending() == b0.spec_pending()) by {
        assert forall|d: int, k: int| 0 <= d < 1 implies !(#[trigger] b0.decl_conflicts(
            single_write_decl(buffer, range, memory)[d],
            k,
            0,
        )) by {
            assert(single_write_decl(buffer, range, memory)[d] == (Resource::Buffer {
                buffer,
                range,
                memory,
            }));
        }
    }
    // The second batch's write meets the first batch's unflushed write.
    let kw = range.start as int;
    assert(range.spec_contains(kw));
    assert(b1.buf_tracked(buffer, kw) == decls_buf_tracked(
        single_write_decl(buffer, range, memory),
        b0.buf_tracked(buffer, kw),
        buffer,
        kw,
        0,
    ));
    assert(single_write_decl(buffer, range, memory).drop_last() =~= Seq::<Resource>::empty());
    assert(single_write_decl(buffer, range, memory).last() == (Resource::Buffer {
        buffer,
        range,
        memory,
    }));
    assert(decls_buf_tracked(
        Seq::<Resource>::empty(),
        b0.buf_tracked(buffer, kw),
        buffer,
        kw,
        0,
    ) == b0.buf_tracked(buffer, kw));
    assert(b1.buf_tracked(buffer, kw) == Some(
        next_buf_state(b0.buf_tracked(buffer, kw), 0, ParamName::SecondaryCommandBuffer, memory),
    ));
    assert(buf_hazard_unflushed(b1.buf_tracked(buffer, kw), 1, memory, b1.spec_first_unflushed()));
    assert(b2.spec_barriers() == flush_boundaries(b1.spec_barriers(), 0, 1));
    assert(flush_boundaries(b1.spec_barriers(), 0, 1) =~= seq![0usize, 1usize]);
}

/// Law: the same two conflicting writes recorded through one combined
/// execute batch insert zero barriers: the intra-batch hazard is left,
/// documented, to the caller.
///
/// `b1` is a fresh builder `b0` after a single execute batch declaring the
/// same exclusive range twice, related by the submit contract's no-conflict
/// clause.
pub proof fn lemma_combined_batch_no_barrier(
    b0: SyncCommandBufferBuilder,
    b1: SyncCommandBufferBuilder,
    buffer: u64,
    range: DeviceRange,
    memory: PipelineMemoryAccess,
)
    requires
        range.wf(),
        forall|k: int| (#[trigger] b0.buf_tracked(buffer, k)) is None,
        (forall|d: int, k: int|
            0 <= d < 2 ==> !(#[trigger] b0.decl_conflicts(
                twin_write_decls(buffer, range, memory)[d],
                k,
                b0.spec_commands().len() as usize,
            ))) ==> b1.spec_barriers() == b0.spec_barriers() && b1.spec_emitted()
            == b0.spec_emitted() && b1.spec_first_unflushed() == b0.spec_first_unflushed()
            && b1.spec_pending() == b0.spec_pending(),
    ensures
        b1.spec_barriers() == b0.spec_barriers(),
        b1.spec_emitted() == b0.spec_emitted(),
        b1.spec_pending() == b0.spec_pending(),
{
    assert forall|d: int, k: int| 0 <= d < 2 implies !(#[trigger] b0.decl_conflicts(
        twin_write_decls(buffer, range, memory)[d],
        k,
        b0.spec_commands().len() as usize,
    )) by {
        assert(twin_write_decls(buffer, range, memory)[d] == (Resource::Buffer {
            buffer,
            range,
            memory,
        }));
    }
}

/// Law: the finalized enumeration lists exactly the distinct resources
/// referenced, each with the accumulated access equal to the union of all
/// its individual declared accesses (and the covering range of the declared
/// ranges; for images also the first start layout and last end layout).
///
/// This restates, for readers, the enumeration clause that `wf` carries and
/// every builder operation preserves.
pub proof fn lemma_enumeration_accumulates(cb: SyncCommandBuffer)
    requires
        cb.wf(),
    ensures
        crate::synced::buf_enumeration_ok(cb.spec_buffers(), cb.spec_buffer_uses()),
        crate::synced::img_enumeration_ok(cb.spec_images(), cb.spec_image_uses()),
{
}

} // verus!
