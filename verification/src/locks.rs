//! Live, shared lock state of resources, used at submission time.
//!
//! Every resource carries a range-indexed read/write lock: any number of
//! in-flight command buffers may hold shared (read) locks on overlapping
//! ranges, while an exclusive (write) lock excludes every other lock on the
//! points it covers.  Images additionally track the layout their ranges are
//! in.  One [`ResourceStates`] value stands for the live state shared by all
//! command buffers of a device; callers serialize access to it.
//!
//! The model is pointwise: [`ResourceStates::buf_lock`] and
//! [`ResourceStates::img_lock`] give the lock counters (and layout) at every
//! point of every resource, defaulting to "unlocked" for untracked points.

use crate::errors::AccessError;
use crate::flags::{DeviceRange, ImageLayout};
use crate::range_map::RangeMap;
use vstd::prelude::*;

verus! {

/// Lock counters for one point of a buffer.
#[derive(Clone, Copy, Debug, PartialEq, Eq, Structural)]
pub struct BufferLockState {
    pub readers: u64,
    pub writers: u64,
}

/// Lock counters and current layout for one point of an image.
#[derive(Clone, Copy, Debug, PartialEq, Eq, Structural)]
pub struct ImageLockState {
    pub readers: u64,
    pub writers: u64,
    pub layout: ImageLayout,
}

/// The unlocked buffer state.
pub open spec fn buf_unlocked() -> BufferLockState {
    BufferLockState { readers: 0, writers: 0 }
}

/// The unlocked image state, in no particular layout.
pub open spec fn img_unlocked() -> ImageLockState {
    ImageLockState { readers: 0, writers: 0, layout: ImageLayout::Undefined }
}

/// A lock operation on a buffer range.
#[derive(Clone, Copy, Debug, PartialEq, Eq, Structural)]
pub enum BufLockOp {
    AcquireRead,
    AcquireWrite,
    ReleaseRead,
    ReleaseWrite,
}

/// A lock operation on an image range.  Acquiring a write lock also sets the
/// layout the range will be in once the work completes.
#[derive(Clone, Copy, Debug, PartialEq, Eq, Structural)]
pub enum ImgLockOp {
    AcquireRead,
    AcquireWrite(ImageLayout),
    ReleaseRead,
    ReleaseWrite,
}

/// Effect of a buffer lock operation on one point.
pub open spec fn apply_buf_op(op: BufLockOp, s: BufferLockState) -> BufferLockState {
    match op {
        BufLockOp::AcquireRead => BufferLockState { readers: (s.readers + 1) as u64, ..s },
        BufLockOp::AcquireWrite => BufferLockState { writers: (s.writers + 1) as u64, ..s },
        BufLockOp::ReleaseRead => BufferLockState {
            readers: if s.readers > 0 {
                (s.readers - 1) as u64
            } else {
                0
            },
            ..s
        },
        BufLockOp::ReleaseWrite => BufferLockState {
            writers: if s.writers > 0 {
                (s.writers - 1) as u64
            } else {
                0
            },
            ..s
        },
    }
}

/// What a buffer lock operation needs of the prior point state: headroom to
/// count one more lock, or a lock of the matching kind to release.
pub open spec fn buf_op_enabled(op: BufLockOp, s: BufferLockState) -> bool {
    match op {
        BufLockOp::AcquireRead => s.readers < u64::MAX,
        BufLockOp::AcquireWrite => s.writers < u64::MAX,
        BufLockOp::ReleaseRead => s.readers >= 1,
        BufLockOp::ReleaseWrite => s.writers >= 1,
    }
}

/// Effect of an image lock operation on one point.
pub open spec fn apply_img_op(op: ImgLockOp, s: ImageLockState) -> ImageLockState {
    match op {
        ImgLockOp::AcquireRead => ImageLockState { readers: (s.readers + 1) as u64, ..s },
        ImgLockOp::AcquireWrite(layout) => ImageLockState {
            writers: (s.writers + 1) as u64,
            layout,
            ..s
        },
        ImgLockOp::ReleaseRead => ImageLockState {
            readers: if s.readers > 0 {
                (s.readers - 1) as u64
            } else {
                0
            },
            ..s
        },
        ImgLockOp::ReleaseWrite => ImageLockState {
            writers: if s.writers > 0 {
                (s.writers - 1) as u64
            } else {
                0
            },
            ..s
        },
    }
}

/// What an image lock operation needs of the prior point state.
pub open spec fn img_op_enabled(op: ImgLockOp, s: ImageLockState) -> bool {
    match op {
        ImgLockOp::AcquireRead => s.readers < u64::MAX,
        ImgLockOp::AcquireWrite(_) => s.writers < u64::MAX,
        ImgLockOp::ReleaseRead => s.readers >= 1,
        ImgLockOp::ReleaseWrite => s.writers >= 1,
    }
}

/// Executable twin of [`apply_buf_op`].
fn apply_buf_op_exec(op: BufLockOp, s: BufferLockState) -> (r: BufferLockState)
    requires
        buf_op_enabled(op, s),
    ensures
        r == apply_buf_op(op, s),
{
    match op {
        BufLockOp::AcquireRead => BufferLockState { readers: s.readers + 1, writers: s.writers },
        BufLockOp::AcquireWrite => BufferLockState { readers: s.readers, writers: s.writers + 1 },
        BufLockOp::ReleaseRead => BufferLockState { readers: s.readers - 1, writers: s.writers },
        BufLockOp::ReleaseWrite => BufferLockState { readers: s.readers, writers: s.writers - 1 },
    }
}

/// Executable twin of [`apply_img_op`].
fn apply_img_op_exec(op: ImgLockOp, s: ImageLockState) -> (r: ImageLockState)
    requires
        img_op_enabled(op, s),
    ensures
        r == apply_img_op(op, s),
{
    match op {
        ImgLockOp::AcquireRead => ImageLockState {
            readers: s.readers + 1,
            writers: s.writers,
            layout: s.layout,
        },
        ImgLockOp::AcquireWrite(layout) => ImageLockState {
            readers: s.readers,
            writers: s.writers + 1,
            layout,
        },
        ImgLockOp::ReleaseRead => ImageLockState {
            readers: s.readers - 1,
            writers: s.writers,
            layout: s.layout,
        },
        ImgLockOp::ReleaseWrite => ImageLockState {
            readers: s.readers,
            writers: s.writers - 1,
            layout: s.layout,
        },
    }
}

/// Executable form of the operation's effect on an untracked point.
fn apply_buf_op_exec_default(op: BufLockOp) -> (r: BufferLockState)
    ensures
        r == apply_buf_op(op, buf_unlocked()),
{
    match op {
        BufLockOp::AcquireRead => BufferLockState { readers: 1, writers: 0 },
        BufLockOp::AcquireWrite => BufferLockState { readers: 0, writers: 1 },
        BufLockOp::ReleaseRead => BufferLockState { readers: 0, writers: 0 },
        BufLockOp::ReleaseWrite => BufferLockState { readers: 0, writers: 0 },
    }
}

/// Executable form of the operation's effect on an untracked point.
fn apply_img_op_exec_default(op: ImgLockOp) -> (r: ImageLockState)
    ensures
        r == apply_img_op(op, img_unlocked()),
{
    match op {
        ImgLockOp::AcquireRead => ImageLockState {
            readers: 1,
            writers: 0,
            layout: ImageLayout::Undefined,
        },
        ImgLockOp::AcquireWrite(layout) => ImageLockState { readers: 0, writers: 1, layout },
        ImgLockOp::ReleaseRead => ImageLockState {
            readers: 0,
            writers: 0,
            layout: ImageLayout::Undefined,
        },
        ImgLockOp::ReleaseWrite => ImageLockState {
            readers: 0,
            writers: 0,
            layout: ImageLayout::Undefined,
        },
    }
}

/// The live lock state of all resources of a device.
pub struct ResourceStates {
    buffers: Vec<(u64, RangeMap<BufferLockState>)>,
    images: Vec<(u64, RangeMap<ImageLockState>)>,
}

impl ResourceStates {
    /// The tracked buffers, in first-lock order.
    pub closed spec fn buf_entries(&self) -> Seq<(u64, RangeMap<BufferLockState>)> {
        self.buffers@
    }

    /// The tracked images, in first-lock order.
    pub closed spec fn img_entries(&self) -> Seq<(u64, RangeMap<ImageLockState>)> {
        self.images@
    }

    /// Invariant: resource handles are distinct and every range map is
    /// well-formed.
    pub open spec fn wf(&self) -> bool {
        &&& forall|i: int, j: int|
            0 <= i < j < self.buf_entries().len() ==> (#[trigger] self.buf_entries()[i]).0 != (
            #[trigger] self.buf_entries()[j]).0
        &&& forall|i: int|
            0 <= i < self.buf_entries().len() ==> (#[trigger] self.buf_entries()[i]).1.wf()
        &&& forall|i: int, j: int|
            0 <= i < j < self.img_entries().len() ==> (#[trigger] self.img_entries()[i]).0 != (
            #[trigger] self.img_entries()[j]).0
        &&& forall|i: int|
            0 <= i < self.img_entries().len() ==> (#[trigger] self.img_entries()[i]).1.wf()
    }

    /// True if `buffer` has a tracking entry.
    pub open spec fn spec_has_buffer(&self, buffer: u64) -> bool {
        exists|i: int| 0 <= i < self.buf_entries().len() && (#[trigger] self.buf_entries()[i]).0 == buffer
    }

    /// Index of `buffer`'s tracking entry (meaningful only if present).
    pub open spec fn buf_idx(&self, buffer: u64) -> int {
        choose|i: int| 0 <= i < self.buf_entries().len() && (#[trigger] self.buf_entries()[i]).0 == buffer
    }

    /// True if `image` has a tracking entry.
    pub open spec fn spec_has_image(&self, image: u64) -> bool {
        exists|i: int| 0 <= i < self.img_entries().len() && (#[trigger] self.img_entries()[i]).0 == image
    }

    /// Index of `image`'s tracking entry (meaningful only if present).
    pub open spec fn img_idx(&self, image: u64) -> int {
        choose|i: int| 0 <= i < self.img_entries().len() && (#[trigger] self.img_entries()[i]).0 == image
    }

    /// The lock state at point `k` of `buffer`; unlocked if untracked.
    pub open spec fn buf_lock(&self, buffer: u64, k: int) -> BufferLockState {
        if self.spec_has_buffer(buffer) {
            match self.buf_entries()[self.buf_idx(buffer)].1.at(k) {
                Some(v) => v,
                None => buf_unlocked(),
            }
        } else {
            buf_unlocked()
        }
    }

    /// The lock state at point `k` of `image`; unlocked if untracked.
    pub open spec fn img_lock(&self, image: u64, k: int) -> ImageLockState {
        if self.spec_has_image(image) {
            match self.img_entries()[self.img_idx(image)].1.at(k) {
                Some(v) => v,
                None => img_unlocked(),
            }
        } else {
            img_unlocked()
        }
    }

    /// In a well-formed state the entry of a handle is unique.
    pub proof fn lemma_buf_lookup(&self, i: int)
        requires
            self.wf(),
            0 <= i < self.buf_entries().len(),
        ensures
            self.spec_has_buffer(self.buf_entries()[i].0),
            self.buf_idx(self.buf_entries()[i].0) == i,
    {
        let id = self.buf_entries()[i].0;
        assert(self.spec_has_buffer(id));
        let j = self.buf_idx(id);
        if i < j {
            assert(self.buf_entries()[i].0 != self.buf_entries()[j].0);
        } else if j < i {
            assert(self.buf_entries()[j].0 != self.buf_entries()[i].0);
        }
    }

    /// In a well-formed state the entry of a handle is unique.
    pub proof fn lemma_img_lookup(&self, i: int)
        requires
            self.wf(),
            0 <= i < self.img_entries().len(),
        ensures
            self.spec_has_image(self.img_entries()[i].0),
            self.img_idx(self.img_entries()[i].0) == i,
    {
        let id = self.img_entries()[i].0;
        assert(self.spec_has_image(id));
        let j = self.img_idx(id);
        if i < j {
            assert(self.img_entries()[i].0 != self.img_entries()[j].0);
        } else if j < i {
            assert(self.img_entries()[j].0 != self.img_entries()[i].0);
        }
    }

    /// Fresh state: nothing is locked.
    pub fn new() -> (r: Self)
        ensures
            r.wf(),
            forall|b: u64, k: int| r.buf_lock(b, k) == buf_unlocked(),
            forall|b: u64, k: int| r.img_lock(b, k) == img_unlocked(),
    {
        let r = ResourceStates { buffers: Vec::new(), images: Vec::new() };
        proof {
            assert(forall|b: u64| !r.spec_has_buffer(b));
            assert(forall|b: u64| !r.spec_has_image(b));
        }
        r
    }

    /// True if every point of `range` of `buffer` could take the requested
    /// lock now: no writer anywhere, and for an exclusive request no reader
    /// either.
    pub open spec fn spec_buf_lockable(&self, buffer: u64, range: DeviceRange, exclusive: bool) -> bool {
        forall|k: int|
            range.spec_contains(k) ==> (#[trigger] self.buf_lock(buffer, k)).writers == 0 && (
            exclusive ==> self.buf_lock(buffer, k).readers == 0)
    }

    /// True if the live state holds any record for point `k` of `image`.
    pub open spec fn img_tracked(&self, image: u64, k: int) -> bool {
        self.spec_has_image(image) && self.img_entries()[self.img_idx(image)].1.covers(k)
    }

    /// True if every point of `range` of `image` could take the requested
    /// lock now and, where the live state knows the point's layout, that
    /// layout is the expected one.  Untracked points carry no layout
    /// knowledge and do not fail the expectation.
    pub open spec fn spec_img_lockable(
        &self,
        image: u64,
        range: DeviceRange,
        exclusive: bool,
        expected: ImageLayout,
    ) -> bool {
        forall|k: int|
            range.spec_contains(k) ==> (#[trigger] self.img_lock(image, k)).writers == 0 && (
            exclusive ==> self.img_lock(image, k).readers == 0) && (expected
                != ImageLayout::Undefined && self.img_tracked(image, k)
                ==> self.img_lock(image, k).layout == expected)
    }

    /// Checks whether `range` of `buffer` could take the requested lock.
    pub fn check_buffer(&self, buffer: u64, range: DeviceRange, exclusive: bool) -> (r: Result<
        (),
        AccessError,
    >)
        requires
            self.wf(),
        ensures
            r is Ok <==> self.spec_buf_lockable(buffer, range, exclusive),
            r is Err ==> r == Err::<(), AccessError>(AccessError::AlreadyInUse),
    {
        let idx = match self.find_buffer(buffer) {
            Some(i) => i,
            None => {
                proof {
                    assert(forall|k: int| self.buf_lock(buffer, k) == buf_unlocked());
                }
                return Ok(());
            },
        };
        proof {
            self.lemma_buf_lookup(idx as int);
        }
        let entries = self.buffers[idx].1.range(range.start, range.end);
        let ghost rm = self.buf_entries()[idx as int].1;
        let mut i: usize = 0;
        while i < entries.len()
            invariant
                self.wf(),
                idx < self.buf_entries().len(),
                self.buf_entries()[idx as int].0 == buffer,
                self.buf_idx(buffer) == idx,
                self.spec_has_buffer(buffer),
                rm == self.buf_entries()[idx as int].1,
                i <= entries@.len(),
                forall|j: int|
                    0 <= j < entries@.len() ==> range.start <= (#[trigger] entries@[j]).start
                        && entries@[j].start < entries@[j].end && entries@[j].end <= range.end,
                forall|j: int, k: int|
                    0 <= j < entries@.len() && #[trigger] entries@[j].spec_contains(k) ==> rm.at(k)
                        == Some(entries@[j].value),
                forall|k: int|
                    range.spec_contains(k) && rm.covers(k) ==> exists|j: int|
                        0 <= j < entries@.len() && (#[trigger] entries@[j]).spec_contains(k),
                forall|j: int, k: int|
                    0 <= j < i && #[trigger] entries@[j].spec_contains(k) ==> (
                    #[trigger] self.buf_lock(buffer, k)).writers == 0 && (exclusive
                        ==> self.buf_lock(buffer, k).readers == 0),
            decreases entries@.len() - i,
        {
            let e = entries[i];
            if e.value.writers != 0 || (exclusive && e.value.readers != 0) {
                proof {
                    assert(e.spec_contains(e.start as int));
                    assert(rm.at(e.start as int) == Some(e.value));
                    assert(self.buf_lock(buffer, e.start as int) == e.value);
                    assert(!self.spec_buf_lockable(buffer, range, exclusive));
                }
                return Err(AccessError::AlreadyInUse);
            }
            proof {
                assert forall|k: int| entries@[i as int].spec_contains(k) implies (
                #[trigger] self.buf_lock(buffer, k)).writers == 0 && (exclusive ==> self.buf_lock(
                    buffer,
                    k,
                ).readers == 0) by {
                    assert(rm.at(k) == Some(e.value));
                }
            }
            i = i + 1;
        }
        proof {
            assert forall|k: int| range.spec_contains(k) implies (#[trigger] self.buf_lock(
                buffer,
                k,
            )).writers == 0 && (exclusive ==> self.buf_lock(buffer, k).readers == 0) by {
                if rm.covers(k) {
                    let j = choose|j: int|
                        0 <= j < entries@.len() && (#[trigger] entries@[j]).spec_contains(k);
                    assert(entries@[j].spec_contains(k));
                } else {
                    assert(self.buf_lock(buffer, k) == buf_unlocked());
                }
            }
        }
        Ok(())
    }

    /// What the live image check reports when it fails: a lock conflict at
    /// some point, or the layout some tracked point actually holds.
    pub open spec fn img_live_error_matches(
        &self,
        image: u64,
        range: DeviceRange,
        exclusive: bool,
        expected: ImageLayout,
        err: AccessError,
    ) -> bool {
        match err {
            AccessError::AlreadyInUse => exists|k: int|
                range.spec_contains(k) && ((#[trigger] self.img_lock(image, k)).writers > 0 || (
                exclusive && self.img_lock(image, k).readers > 0)),
            AccessError::UnexpectedImageLayout { allowed, requested } => requested == expected
                && expected != ImageLayout::Undefined && exists|k: int|
                range.spec_contains(k) && #[trigger] self.img_tracked(image, k) && self.img_lock(
                    image,
                    k,
                ).layout == allowed && allowed != expected,
        }
    }

    /// Checks whether `range` of `image` could take the requested lock while
    /// in the expected layout.
    pub fn check_image(
        &self,
        image: u64,
        range: DeviceRange,
        exclusive: bool,
        expected: ImageLayout,
    ) -> (r: Result<(), AccessError>)
        requires
            self.wf(),
        ensures
            r is Ok <==> self.spec_img_lockable(image, range, exclusive, expected),
            r matches Err(e) ==> self.img_live_error_matches(image, range, exclusive, expected, e),
    {
        let idx = match self.find_image(image) {
            Some(i) => i,
            None => {
                proof {
                    assert(forall|k: int| self.img_lock(image, k) == img_unlocked());
                    assert(forall|k: int| !self.img_tracked(image, k));
                }
                return Ok(());
            },
        };
        proof {
            self.lemma_img_lookup(idx as int);
        }
        let entries = self.images[idx].1.range(range.start, range.end);
        let ghost rm = self.img_entries()[idx as int].1;
        let mut i: usize = 0;
        while i < entries.len()
            invariant
                self.wf(),
                idx < self.img_entries().len(),
                self.img_entries()[idx as int].0 == image,
                self.img_idx(image) == idx,
                self.spec_has_image(image),
                rm == self.img_entries()[idx as int].1,
                i <= entries@.len(),
                forall|j: int|
                    0 <= j < entries@.len() ==> range.start <= (#[trigger] entries@[j]).start
                        && entries@[j].start < entries@[j].end && entries@[j].end <= range.end,
                forall|j: int, k: int|
                    0 <= j < entries@.len() && #[trigger] entries@[j].spec_contains(k) ==> rm.at(k)
                        == Some(entries@[j].value),
                forall|k: int|
                    range.spec_contains(k) && rm.covers(k) ==> exists|j: int|
                        0 <= j < entries@.len() && (#[trigger] entries@[j]).spec_contains(k),
                forall|j: int, k: int|
                    0 <= j < i && #[trigger] entries@[j].spec_contains(k) ==> (
                    #[trigger] self.img_lock(image, k)).writers == 0 && (exclusive
                        ==> self.img_lock(image, k).readers == 0) && (expected
                        != ImageLayout::Undefined ==> self.img_lock(image, k).layout == expected),
            decreases entries@.len() - i,
        {
            let e = entries[i];
            proof {
                assert(e.spec_contains(e.start as int));
                assert(rm.at(e.start as int) == Some(e.value));
                assert(self.img_lock(image, e.start as int) == e.value);
            }
            if expected != ImageLayout::Undefined && e.value.layout != expected {
                proof {
                    assert(self.img_tracked(image, e.start as int));
                    assert(!self.spec_img_lockable(image, range, exclusive, expected));
                }
                return Err(
                    AccessError::UnexpectedImageLayout { allowed: e.value.layout, requested: expected },
                );
            }
            if e.value.writers != 0 || (exclusive && e.value.readers != 0) {
                proof {
                    assert(!self.spec_img_lockable(image, range, exclusive, expected));
                }
                return Err(AccessError::AlreadyInUse);
            }
            proof {
                assert forall|k: int| entries@[i as int].spec_contains(k) implies (
                #[trigger] self.img_lock(image, k)).writers == 0 && (exclusive ==> self.img_lock(
                    image,
                    k,
                ).readers == 0) && (expected != ImageLayout::Undefined ==> self.img_lock(
                    image,
                    k,
                ).layout == expected) by {
                    assert(rm.at(k) == Some(e.value));
                    assert(self.img_lock(image, k) == e.value);
                }
            }
            i = i + 1;
        }
        proof {
            assert forall|k: int| range.spec_contains(k) implies (#[trigger] self.img_lock(
                image,
                k,
            )).writers == 0 && (exclusive ==> self.img_lock(image, k).readers == 0) && (expected
                != ImageLayout::Undefined && self.img_tracked(image, k) ==> self.img_lock(
                image,
                k,
            ).layout == expected) by {
                if rm.covers(k) {
                    let j = choose|j: int|
                        0 <= j < entries@.len() && (#[trigger] entries@[j]).spec_contains(k);
                    assert(entries@[j].spec_contains(k));
                } else {
                    assert(self.img_lock(image, k) == img_unlocked());
                    assert(!self.img_tracked(image, k));
                }
            }
        }
        Ok(())
    }

    /// Position of `buffer`'s entry, if present.
    fn find_buffer(&self, buffer: u64) -> (r: Option<usize>)
        ensures
            match r {
                Some(i) => i < self.buf_entries().len() && self.buf_entries()[i as int].0 == buffer,
                None => !self.spec_has_buffer(buffer),
            },
    {
        let mut i: usize = 0;
        while i < self.buffers.len()
            invariant
                i <= self.buf_entries().len(),
                forall|j: int| 0 <= j < i ==> (#[trigger] self.buf_entries()[j]).0 != buffer,
            decreases self.buf_entries().len() - i,
        {
            if self.buffers[i].0 == buffer {
                return Some(i);
            }
            i = i + 1;
        }
        None
    }

    /// Applies `op` to every point of `range` of `buffer`: acquires or
    /// releases one shared or exclusive lock there (and nothing else).
    #[verifier::rlimit(50)]
    pub fn update_buffer(&mut self, buffer: u64, range: DeviceRange, op: BufLockOp)
        requires
            old(self).wf(),
            range.wf(),
            forall|k: int|
                range.spec_contains(k) ==> buf_op_enabled(op, old(self).buf_lock(buffer, k)),
        ensures
            final(self).wf(),
            forall|k: int|
                range.spec_contains(k) ==> final(self).buf_lock(buffer, k) == apply_buf_op(
                    op,
                    old(self).buf_lock(buffer, k),
                ),
            forall|b: u64, k: int|
                !(b == buffer && range.spec_contains(k)) ==> final(self).buf_lock(b, k) == old(
                    self,
                ).buf_lock(b, k),
            forall|b: u64, k: int| final(self).img_lock(b, k) == old(self).img_lock(b, k),
    {
        let idx: usize = match self.find_buffer(buffer) {
            Some(i) => i,
            None => {
                let i = self.buffers.len();
                self.buffers.push((buffer, RangeMap::new()));
                proof {
                    assert(forall|j: int|
                        0 <= j < i ==> #[trigger] self.buf_entries()[j]
                            == old(self).buf_entries()[j]);
                    assert(self.buf_entries()[i as int].0 == buffer);
                    assert(self.wf());
                    assert forall|b: u64, k: int| self.buf_lock(b, k) == old(self).buf_lock(
                        b,
                        k,
                    ) by {
                        if b == buffer {
                            self.lemma_buf_lookup(i as int);
                        } else {
                            if old(self).spec_has_buffer(b) {
                                let j = old(self).buf_idx(b);
                                old(self).lemma_buf_lookup(j);
                                self.lemma_buf_lookup(j);
                            } else {
                                assert(!self.spec_has_buffer(b));
                            }
                        }
                    }
                }
                i
            },
        };
        let ghost mid = *self;
        let (id, mut rm) = self.buffers.remove(idx);
        proof {
            mid.lemma_buf_lookup(idx as int);
            assert(forall|k: int|
                mid.buf_lock(buffer, k) == match rm.at(k) {
                    Some(v) => v,
                    None => buf_unlocked(),
                });
        }
        let ghost rm_orig = rm;
        rm.split_at(range.start);
        rm.split_at(range.end);
        let ghost rm1 = rm;
        let mut gaps: Vec<(u64, u64)> = Vec::new();
        let mut cursor: u64 = range.start;
        let mut i: usize = rm.lower_bound(range.start);
        proof {
            assert(forall|j: int|
                0 <= j < rm.entries().len() ==> !((#[trigger] rm.entries()[j]).start < range.start
                    && range.start < rm.entries()[j].end));
        }
        loop
            invariant_except_break
                i <= rm.entries().len(),
                rm.wf(),
                rm1.wf(),
                range.wf(),
                range.start <= cursor <= range.end,
                rm.entries().len() == rm1.entries().len(),
                forall|j: int|
                    0 <= j < rm.entries().len() ==> (#[trigger] rm.entries()[j]).start
                        == rm1.entries()[j].start && rm.entries()[j].end == rm1.entries()[j].end,
                forall|j: int|
                    0 <= j < rm1.entries().len() ==> !((#[trigger] rm1.entries()[j]).start
                        < range.start && range.start < rm1.entries()[j].end),
                forall|j: int|
                    0 <= j < rm1.entries().len() ==> !((#[trigger] rm1.entries()[j]).start
                        < range.end && range.end < rm1.entries()[j].end),
                forall|j: int| 0 <= j < i ==> (#[trigger] rm.entries()[j]).end <= cursor,
                forall|j: int|
                    i <= j < rm.entries().len() ==> (#[trigger] rm.entries()[j]).start >= cursor,
                forall|k: int|
                    range.start <= k < cursor && rm1.at(k) is Some ==> rm.at(k) == Some(
                        apply_buf_op(op, rm1.at(k)->0),
                    ),
                forall|k: int|
                    !(range.start <= k < cursor) ==> rm.at(k) == rm1.at(k),
                forall|g: int|
                    0 <= g < gaps@.len() ==> range.start <= (#[trigger] gaps@[g]).0 < gaps@[g].1
                        <= range.end && gaps@[g].1 <= cursor,
                forall|g1: int, g2: int|
                    0 <= g1 < g2 < gaps@.len() ==> (#[trigger] gaps@[g1]).1 <= (#[trigger] gaps@[
                    g2]).0,
                forall|g: int, k: int|
                    #![trigger gaps@[g], rm1.at(k)]
                    0 <= g < gaps@.len() && gaps@[g].0 <= k < gaps@[g].1 ==> rm1.at(k) is None
                        && rm.at(k) is None,
                forall|k: int|
                    range.start <= k < cursor && rm1.at(k) is None ==> exists|g: int|
                        0 <= g < gaps@.len() && (#[trigger] gaps@[g]).0 <= k < gaps@[g].1,
                forall|k: int|
                    range.spec_contains(k) && rm1.at(k) is Some ==> buf_op_enabled(
                        op,
                        rm1.at(k)->0,
                    ),
            ensures
                rm.wf(),
                rm1.wf(),
                range.start <= cursor <= range.end,
                forall|g: int|
                    0 <= g < gaps@.len() ==> (#[trigger] gaps@[g]).1 <= cursor,
                forall|g1: int, g2: int|
                    0 <= g1 < g2 < gaps@.len() ==> (#[trigger] gaps@[g1]).1 <= (#[trigger] gaps@[
                    g2]).0,
                forall|k: int|
                    range.start <= k < cursor && rm1.at(k) is Some ==> rm.at(k) == Some(
                        apply_buf_op(op, rm1.at(k)->0),
                    ),
                forall|k: int|
                    !(range.start <= k < cursor) ==> rm.at(k) == rm1.at(k),
                forall|k: int| cursor <= k < range.end ==> rm1.at(k) is None,
                forall|g: int|
                    0 <= g < gaps@.len() ==> range.start <= (#[trigger] gaps@[g]).0 < gaps@[g].1
                        <= range.end,
                forall|g: int, k: int|
                    #![trigger gaps@[g], rm1.at(k)]
                    0 <= g < gaps@.len() && gaps@[g].0 <= k < gaps@[g].1 ==> rm1.at(k) is None
                        && rm.at(k) is None,
                forall|k: int|
                    range.start <= k < cursor && rm1.at(k) is None ==> exists|g: int|
                        0 <= g < gaps@.len() && (#[trigger] gaps@[g]).0 <= k < gaps@[g].1,
            decreases rm.entries().len() - i,
        {
            if i >= rm.num_entries() {
                proof {
                    assert forall|k: int| cursor <= k < range.end implies rm1.at(k) is None by {
                        if rm1.covers(k) {
                            let j = rm1.index_of(k);
                            rm1.lemma_at_entry(j, k);
                            assert(rm.entries()[j].end <= cursor);
                        }
                    }
                }
                break ;
            }
            let e = rm.entry(i);
            if e.start >= range.end {
                proof {
                    assert forall|k: int| cursor <= k < range.end implies rm1.at(k) is None by {
                        if rm1.covers(k) {
                            let j = rm1.index_of(k);
                            rm1.lemma_at_entry(j, k);
                            assert(rm.entries()[j].start == rm1.entries()[j].start);
                            if j < i {
                                assert(rm.entries()[j].end <= cursor);
                            } else {
                                assert(rm.entries()[j].start >= cursor);
                                assert(rm.entries()[i as int].start <= rm.entries()[j].start
                                    || j == i);
                            }
                        }
                    }
                }
                break ;
            }
            if cursor < e.start {
                let ghost gpre = gaps@;
                gaps.push((cursor, e.start));
                proof {
                    assert(forall|g: int| 0 <= g < gpre.len() ==> gaps@[g] == gpre[g]);
                    assert(gaps@[gaps@.len() - 1] == (cursor, e.start));
                    assert forall|k: int|
                        range.start <= k < e.start && #[trigger] rm1.at(k) is None implies exists|
                    g: int|
                        0 <= g < gaps@.len() && (#[trigger] gaps@[g]).0 <= k < gaps@[g].1 by {
                        if k < cursor {
                            let g0 = choose|g: int|
                                0 <= g < gpre.len() && (#[trigger] gpre[g]).0 <= k < gpre[g].1;
                            assert(gaps@[g0].0 <= k < gaps@[g0].1);
                        } else {
                            assert(gaps@[gaps@.len() - 1].0 <= k < gaps@[gaps@.len() - 1].1);
                        }
                    }
                    assert forall|k: int| cursor <= k < e.start implies #[trigger] rm1.at(k)
                        is None by {
                        if rm1.covers(k) {
                            let j = rm1.index_of(k);
                            rm1.lemma_at_entry(j, k);
                            if j < i {
                                assert(rm.entries()[j].end <= cursor);
                            } else {
                                assert(rm.entries()[j].start >= cursor);
                                if j > i {
                                    assert(rm.entries()[i as int].end <= rm.entries()[j].start);
                                }
                            }
                        }
                    }
                }
            }
            proof {
                rm1.lemma_at_entry(i as int, e.start as int);
                assert(rm1.at(e.start as int) == Some(e.value));
                assert(range.spec_contains(e.start as int));
                assert(e.end <= range.end);
            }
            let newv = apply_buf_op_exec(op, e.value);
            let ghost rm_before = rm;
            rm.set_value(i, newv);
            proof {
                assert forall|k: int|
                    range.start <= k < e.end && rm1.at(k) is Some implies rm.at(k) == Some(
                    apply_buf_op(op, rm1.at(k)->0),
                ) by {
                    if e.start <= k < e.end {
                        rm1.lemma_at_entry(i as int, k);
                    } else {
                        assert(rm_before.at(k) == rm.at(k));
                    }
                }
                assert forall|k: int| e.start <= k < e.end implies rm1.at(k) is Some by {
                    rm1.lemma_at_entry(i as int, k);
                }
            }
            cursor = e.end;
            i = i + 1;
        }
        let ghost gaps_pre = gaps@;
        if cursor < range.end {
            gaps.push((cursor, range.end));
            proof {
                assert(gaps@[gaps@.len() - 1] == (cursor, range.end));
            }
        }
        let ghost rm2 = rm;
        let ghost gaps_all = gaps@;
        proof {
            assert(forall|g: int| 0 <= g < gaps_pre.len() ==> gaps_all[g] == gaps_pre[g]);
            assert forall|k: int|
                range.start <= k < cursor && rm1.at(k) is None implies exists|g: int|
                0 <= g < gaps_all.len() && (#[trigger] gaps_all[g]).0 <= k < gaps_all[g].1 by {
                let g0 = choose|g: int|
                    0 <= g < gaps_pre.len() && (#[trigger] gaps_pre[g]).0 <= k < gaps_pre[g].1;
                assert(gaps_all[g0].0 <= k < gaps_all[g0].1);
            }
        }
        // Fill the uncovered gaps with the state an untracked point carries,
        // transformed by the operation.
        let gapv = apply_buf_op_exec_default(op);
        let mut g: usize = 0;
        while g < gaps.len()
            invariant
                rm.wf(),
                gaps@ == gaps_all,
                gapv == apply_buf_op(op, buf_unlocked()),
                g <= gaps@.len(),
                forall|gg: int|
                    0 <= gg < gaps@.len() ==> range.start <= (#[trigger] gaps@[gg]).0 < gaps@[
                    gg].1 <= range.end,
                forall|gg: int, k: int|
                    #![trigger gaps@[gg], rm.at(k)]
                    g <= gg < gaps@.len() && gaps@[gg].0 <= k < gaps@[gg].1 ==> rm.at(k) == rm2.at(
                        k,
                    ) && rm.at(k) is None,
                forall|gg: int, k: int|
                    #![trigger gaps@[gg], rm.at(k)]
                    0 <= gg < g && gaps@[gg].0 <= k < gaps@[gg].1 ==> rm.at(k) == Some(gapv),
                forall|k: int|
                    #![trigger rm.at(k)]
                    (forall|gg: int|
                        0 <= gg < gaps@.len() ==> !((#[trigger] gaps@[gg]).0 <= k < gaps@[gg].1))
                        ==> rm.at(k) == rm2.at(k),
                forall|g1: int, g2: int|
                    0 <= g1 < g2 < gaps@.len() ==> (#[trigger] gaps@[g1]).1 <= (#[trigger] gaps@[
                    g2]).0,
            decreases gaps@.len() - g,
        {
            let (gs, ge) = gaps[g];
            rm.insert(gs, ge, gapv);
            g = g + 1;
        }
        self.buffers.insert(idx, (id, rm));
        proof {
            let fin = *self;
            assert(fin.buf_entries().len() == mid.buf_entries().len());
            assert(forall|j: int|
                0 <= j < fin.buf_entries().len() && j != idx ==> #[trigger] fin.buf_entries()[j]
                    == mid.buf_entries()[j]);
            assert(fin.buf_entries()[idx as int].0 == buffer);
            assert(fin.wf());
            fin.lemma_buf_lookup(idx as int);
            assert forall|k: int| range.spec_contains(k) implies fin.buf_lock(buffer, k)
                == apply_buf_op(op, old(self).buf_lock(buffer, k)) by {
                if rm1.at(k) is Some {
                    assert(k < cursor);
                    assert(rm2.at(k) == Some(apply_buf_op(op, rm1.at(k)->0)));
                    assert forall|gg: int|
                        0 <= gg < gaps_all.len() implies !((#[trigger] gaps_all[gg]).0 <= k
                        < gaps_all[gg].1) by {}
                    assert(rm.at(k) == rm2.at(k));
                } else {
                    if k < cursor {
                        assert(exists|gg: int|
                            0 <= gg < gaps_all.len() && (#[trigger] gaps_all[gg]).0 <= k
                                < gaps_all[gg].1);
                    } else {
                        assert(gaps_all[gaps_all.len() - 1].0 <= k < gaps_all[gaps_all.len() - 1].1);
                        assert(exists|gg: int|
                            0 <= gg < gaps_all.len() && (#[trigger] gaps_all[gg]).0 <= k
                                < gaps_all[gg].1);
                    }
                    let gg = choose|gg: int|
                        0 <= gg < gaps_all.len() && (#[trigger] gaps_all[gg]).0 <= k
                            < gaps_all[gg].1;
                    assert(rm.at(k) == Some(apply_buf_op(op, buf_unlocked())));
                    assert(old(self).buf_lock(buffer, k) == buf_unlocked());
                }
            }
            assert forall|b: u64, k: int|
                !(b == buffer && range.spec_contains(k)) implies fin.buf_lock(b, k) == old(
                self,
            ).buf_lock(b, k) by {
                if b == buffer {
                    assert(rm.at(k) == rm1.at(k));
                } else {
                    if mid.spec_has_buffer(b) {
                        let j = mid.buf_idx(b);
                        mid.lemma_buf_lookup(j);
                        fin.lemma_buf_lookup(j);
                    } else {
                        assert(!fin.spec_has_buffer(b));
                    }
                }
            }
            assert forall|b: u64, k: int| fin.img_lock(b, k) == old(self).img_lock(b, k) by {
                assert(fin.img_entries() == mid.img_entries());
            }
        }
    }

    /// Applies `op` to every point of `range` of `image`: acquires or
    /// releases one shared or exclusive lock there (and nothing else).
    #[verifier::rlimit(50)]
    pub fn update_image(&mut self, image: u64, range: DeviceRange, op: ImgLockOp)
        requires
            old(self).wf(),
            range.wf(),
            forall|k: int|
                range.spec_contains(k) ==> img_op_enabled(op, old(self).img_lock(image, k)),
        ensures
            final(self).wf(),
            forall|k: int|
                range.spec_contains(k) ==> final(self).img_lock(image, k) == apply_img_op(
                    op,
                    old(self).img_lock(image, k),
                ),
            forall|b: u64, k: int|
                !(b == image && range.spec_contains(k)) ==> final(self).img_lock(b, k) == old(
                    self,
                ).img_lock(b, k),
            forall|b: u64, k: int| final(self).buf_lock(b, k) == old(self).buf_lock(b, k),
    {
        let idx: usize = match self.find_image(image) {
            Some(i) => i,
            None => {
                let i = self.images.len();
                self.images.push((image, RangeMap::new()));
                proof {
                    assert(forall|j: int|
                        0 <= j < i ==> #[trigger] self.img_entries()[j]
                            == old(self).img_entries()[j]);
                    assert(self.img_entries()[i as int].0 == image);
                    assert(self.buf_entries() == old(self).buf_entries());
                    assert(self.wf());
                    assert forall|b: u64, k: int| self.img_lock(b, k) == old(self).img_lock(
                        b,
                        k,
                    ) by {
                        if b == image {
                            self.lemma_img_lookup(i as int);
                        } else {
                            if old(self).spec_has_image(b) {
                                let j = old(self).img_idx(b);
                                old(self).lemma_img_lookup(j);
                                self.lemma_img_lookup(j);
                            } else {
                                assert(!self.spec_has_image(b));
                            }
                        }
                    }
                }
                i
            },
        };
        let ghost mid = *self;
        let (id, mut rm) = self.images.remove(idx);
        proof {
            mid.lemma_img_lookup(idx as int);
            assert(forall|k: int|
                mid.img_lock(image, k) == match rm.at(k) {
                    Some(v) => v,
                    None => img_unlocked(),
                });
        }
        let ghost rm_orig = rm;
        rm.split_at(range.start);
        rm.split_at(range.end);
        let ghost rm1 = rm;
        let mut gaps: Vec<(u64, u64)> = Vec::new();
        let mut cursor: u64 = range.start;
        let mut i: usize = rm.lower_bound(range.start);
        proof {
            assert(forall|j: int|
                0 <= j < rm.entries().len() ==> !((#[trigger] rm.entries()[j]).start < range.start
                    && range.start < rm.entries()[j].end));
        }
        loop
            invariant_except_break
                i <= rm.entries().len(),
                rm.wf(),
                rm1.wf(),
                range.wf(),
                range.start <= cursor <= range.end,
                rm.entries().len() == rm1.entries().len(),
                forall|j: int|
                    0 <= j < rm.entries().len() ==> (#[trigger] rm.entries()[j]).start
                        == rm1.entries()[j].start && rm.entries()[j].end == rm1.entries()[j].end,
                forall|j: int|
                    0 <= j < rm1.entries().len() ==> !((#[trigger] rm1.entries()[j]).start
                        < range.start && range.start < rm1.entries()[j].end),
                forall|j: int|
                    0 <= j < rm1.entries().len() ==> !((#[trigger] rm1.entries()[j]).start
                        < range.end && range.end < rm1.entries()[j].end),
                forall|j: int| 0 <= j < i ==> (#[trigger] rm.entries()[j]).end <= cursor,
                forall|j: int|
                    i <= j < rm.entries().len() ==> (#[trigger] rm.entries()[j]).start >= cursor,
                forall|k: int|
                    range.start <= k < cursor && rm1.at(k) is Some ==> rm.at(k) == Some(
                        apply_img_op(op, rm1.at(k)->0),
                    ),
                forall|k: int|
                    !(range.start <= k < cursor) ==> rm.at(k) == rm1.at(k),
                forall|g: int|
                    0 <= g < gaps@.len() ==> range.start <= (#[trigger] gaps@[g]).0 < gaps@[g].1
                        <= range.end && gaps@[g].1 <= cursor,
                forall|g1: int, g2: int|
                    0 <= g1 < g2 < gaps@.len() ==> (#[trigger] gaps@[g1]).1 <= (#[trigger] gaps@[
                    g2]).0,
                forall|g: int, k: int|
                    #![trigger gaps@[g], rm1.at(k)]
                    0 <= g < gaps@.len() && gaps@[g].0 <= k < gaps@[g].1 ==> rm1.at(k) is None
                        && rm.at(k) is None,
                forall|k: int|
                    range.start <= k < cursor && rm1.at(k) is None ==> exists|g: int|
                        0 <= g < gaps@.len() && (#[trigger] gaps@[g]).0 <= k < gaps@[g].1,
                forall|k: int|
                    range.spec_contains(k) && rm1.at(k) is Some ==> img_op_enabled(
                        op,
                        rm1.at(k)->0,
                    ),
            ensures
                rm.wf(),
                rm1.wf(),
                range.start <= cursor <= range.end,
                forall|g: int|
                    0 <= g < gaps@.len() ==> (#[trigger] gaps@[g]).1 <= cursor,
                forall|g1: int, g2: int|
                    0 <= g1 < g2 < gaps@.len() ==> (#[trigger] gaps@[g1]).1 <= (#[trigger] gaps@[
                    g2]).0,
                forall|k: int|
                    range.start <= k < cursor && rm1.at(k) is Some ==> rm.at(k) == Some(
                        apply_img_op(op, rm1.at(k)->0),
                    ),
                forall|k: int|
                    !(range.start <= k < cursor) ==> rm.at(k) == rm1.at(k),
                forall|k: int| cursor <= k < range.end ==> rm1.at(k) is None,
                forall|g: int|
                    0 <= g < gaps@.len() ==> range.start <= (#[trigger] gaps@[g]).0 < gaps@[g].1
                        <= range.end,
                forall|g: int, k: int|
                    #![trigger gaps@[g], rm1.at(k)]
                    0 <= g < gaps@.len() && gaps@[g].0 <= k < gaps@[g].1 ==> rm1.at(k) is None
                        && rm.at(k) is None,
                forall|k: int|
                    range.start <= k < cursor && rm1.at(k) is None ==> exists|g: int|
                        0 <= g < gaps@.len() && (#[trigger] gaps@[g]).0 <= k < gaps@[g].1,
            decreases rm.entries().len() - i,
        {
            if i >= rm.num_entries() {
                proof {
                    assert forall|k: int| cursor <= k < range.end implies rm1.at(k) is None by {
                        if rm1.covers(k) {
                            let j = rm1.index_of(k);
                            rm1.lemma_at_entry(j, k);
                            assert(rm.entries()[j].end <= cursor);
                        }
                    }
                }
                break ;
            }
            let e = rm.entry(i);
            if e.start >= range.end {
                proof {
                    assert forall|k: int| cursor <= k < range.end implies rm1.at(k) is None by {
                        if rm1.covers(k) {
                            let j = rm1.index_of(k);
                            rm1.lemma_at_entry(j, k);
                            assert(rm.entries()[j].start == rm1.entries()[j].start);
                            if j < i {
                                assert(rm.entries()[j].end <= cursor);
                            } else {
                                assert(rm.entries()[j].start >= cursor);
                                assert(rm.entries()[i as int].start <= rm.entries()[j].start
                                    || j == i);
                            }
                        }
                    }
                }
                break ;
            }
            if cursor < e.start {
                let ghost gpre = gaps@;
                gaps.push((cursor, e.start));
                proof {
                    assert(forall|g: int| 0 <= g < gpre.len() ==> gaps@[g] == gpre[g]);
                    assert(gaps@[gaps@.len() - 1] == (cursor, e.start));
                    assert forall|k: int|
                        range.start <= k < e.start && #[trigger] rm1.at(k) is None implies exists|
                    g: int|
                        0 <= g < gaps@.len() && (#[trigger] gaps@[g]).0 <= k < gaps@[g].1 by {
                        if k < cursor {
                            let g0 = choose|g: int|
                                0 <= g < gpre.len() && (#[trigger] gpre[g]).0 <= k < gpre[g].1;
                            assert(gaps@[g0].0 <= k < gaps@[g0].1);
                        } else {
                            assert(gaps@[gaps@.len() - 1].0 <= k < gaps@[gaps@.len() - 1].1);
                        }
                    }
                    assert forall|k: int| cursor <= k < e.start implies #[trigger] rm1.at(k)
                        is None by {
                        if rm1.covers(k) {
                            let j = rm1.index_of(k);
                            rm1.lemma_at_entry(j, k);
                            if j < i {
                                assert(rm.entries()[j].end <= cursor);
                            } else {
                                assert(rm.entries()[j].start >= cursor);
                                if j > i {
                                    assert(rm.entries()[i as int].end <= rm.entries()[j].start);
                                }
                            }
                        }
                    }
                }
            }
            proof {
                rm1.lemma_at_entry(i as int, e.start as int);
                assert(rm1.at(e.start as int) == Some(e.value));
                assert(range.spec_contains(e.start as int));
                assert(e.end <= range.end);
            }
            let newv = apply_img_op_exec(op, e.value);
            let ghost rm_before = rm;
            rm.set_value(i, newv);
            proof {
                assert forall|k: int|
                    range.start <= k < e.end && rm1.at(k) is Some implies rm.at(k) == Some(
                    apply_img_op(op, rm1.at(k)->0),
                ) by {
                    if e.start <= k < e.end {
                        rm1.lemma_at_entry(i as int, k);
                    } else {
                        assert(rm_before.at(k) == rm.at(k));
                    }
                }
                assert forall|k: int| e.start <= k < e.end implies rm1.at(k) is Some by {
                    rm1.lemma_at_entry(i as int, k);
                }
            }
            cursor = e.end;
            i = i + 1;
        }
        let ghost gaps_pre = gaps@;
        if cursor < range.end {
            gaps.push((cursor, range.end));
            proof {
                assert(gaps@[gaps@.len() - 1] == (cursor, range.end));
            }
        }
        let ghost rm2 = rm;
        let ghost gaps_all = gaps@;
        proof {
            assert(forall|g: int| 0 <= g < gaps_pre.len() ==> gaps_all[g] == gaps_pre[g]);
            assert forall|k: int|
                range.start <= k < cursor && rm1.at(k) is None implies exists|g: int|
                0 <= g < gaps_all.len() && (#[trigger] gaps_all[g]).0 <= k < gaps_all[g].1 by {
                let g0 = choose|g: int|
                    0 <= g < gaps_pre.len() && (#[trigger] gaps_pre[g]).0 <= k < gaps_pre[g].1;
                assert(gaps_all[g0].0 <= k < gaps_all[g0].1);
            }
        }
        // Fill the uncovered gaps with the state an untracked point carries,
        // transformed by the operation.
        let gapv = apply_img_op_exec_default(op);
        let mut g: usize = 0;
        while g < gaps.len()
            invariant
                rm.wf(),
                gaps@ == gaps_all,
                gapv == apply_img_op(op, img_unlocked()),
                g <= gaps@.len(),
                forall|gg: int|
                    0 <= gg < gaps@.len() ==> range.start <= (#[trigger] gaps@[gg]).0 < gaps@[
                    gg].1 <= range.end,
                forall|gg: int, k: int|
                    #![trigger gaps@[gg], rm.at(k)]
                    g <= gg < gaps@.len() && gaps@[gg].0 <= k < gaps@[gg].1 ==> rm.at(k) == rm2.at(
                        k,
                    ) && rm.at(k) is None,
                forall|gg: int, k: int|
                    #![trigger gaps@[gg], rm.at(k)]
                    0 <= gg < g && gaps@[gg].0 <= k < gaps@[gg].1 ==> rm.at(k) == Some(gapv),
                forall|k: int|
                    #![trigger rm.at(k)]
                    (forall|gg: int|
                        0 <= gg < gaps@.len() ==> !((#[trigger] gaps@[gg]).0 <= k < gaps@[gg].1))
                        ==> rm.at(k) == rm2.at(k),
                forall|g1: int, g2: int|
                    0 <= g1 < g2 < gaps@.len() ==> (#[trigger] gaps@[g1]).1 <= (#[trigger] gaps@[
                    g2]).0,
            decreases gaps@.len() - g,
        {
            let (gs, ge) = gaps[g];
            rm.insert(gs, ge, gapv);
            g = g + 1;
        }
        self.images.insert(idx, (id, rm));
        proof {
            let fin = *self;
            assert(fin.img_entries().len() == mid.img_entries().len());
            assert(forall|j: int|
                0 <= j < fin.img_entries().len() && j != idx ==> #[trigger] fin.img_entries()[j]
                    == mid.img_entries()[j]);
            assert(fin.img_entries()[idx as int].0 == image);
            assert(fin.buf_entries() == mid.buf_entries());
            assert(fin.wf());
            fin.lemma_img_lookup(idx as int);
            assert forall|k: int| range.spec_contains(k) implies fin.img_lock(image, k)
                == apply_img_op(op, old(self).img_lock(image, k)) by {
                if rm1.at(k) is Some {
                    assert(k < cursor);
                    assert(rm2.at(k) == Some(apply_img_op(op, rm1.at(k)->0)));
                    assert forall|gg: int|
                        0 <= gg < gaps_all.len() implies !((#[trigger] gaps_all[gg]).0 <= k
                        < gaps_all[gg].1) by {}
                    assert(rm.at(k) == rm2.at(k));
                } else {
                    if k < cursor {
                        assert(exists|gg: int|
                            0 <= gg < gaps_all.len() && (#[trigger] gaps_all[gg]).0 <= k
                                < gaps_all[gg].1);
                    } else {
                        assert(gaps_all[gaps_all.len() - 1].0 <= k < gaps_all[gaps_all.len() - 1].1);
                        assert(exists|gg: int|
                            0 <= gg < gaps_all.len() && (#[trigger] gaps_all[gg]).0 <= k
                                < gaps_all[gg].1);
                    }
                    let gg = choose|gg: int|
                        0 <= gg < gaps_all.len() && (#[trigger] gaps_all[gg]).0 <= k
                            < gaps_all[gg].1;
                    assert(rm.at(k) == Some(apply_img_op(op, img_unlocked())));
                    assert(old(self).img_lock(image, k) == img_unlocked());
                }
            }
            assert forall|b: u64, k: int|
                !(b == image && range.spec_contains(k)) implies fin.img_lock(b, k) == old(
                self,
            ).img_lock(b, k) by {
                if b == image {
                    assert(rm.at(k) == rm1.at(k));
                } else {
                    if mid.spec_has_image(b) {
                        let j = mid.img_idx(b);
                        mid.lemma_img_lookup(j);
                        fin.lemma_img_lookup(j);
                    } else {
                        assert(!fin.spec_has_image(b));
                    }
                }
            }
            assert forall|b: u64, k: int| fin.buf_lock(b, k) == old(self).buf_lock(b, k) by {
                assert(fin.buf_entries() == mid.buf_entries());
            }
        }
    }

    /// Position of `image`'s entry, if present.
    fn find_image(&self, image: u64) -> (r: Option<usize>)
        ensures
            match r {
                Some(i) => i < self.img_entries().len() && self.img_entries()[i as int].0 == image,
                None => !self.spec_has_image(image),
            },
    {
        let mut i: usize = 0;
        while i < self.images.len()
            invariant
                i <= self.img_entries().len(),
                forall|j: int| 0 <= j < i ==> (#[trigger] self.img_entries()[j]).0 != image,
            decreases self.img_entries().len() - i,
        {
            if self.images[i].0 == image {
                return Some(i);
            }
            i = i + 1;
        }
        None
    }
}

} // verus!
