//! The pending barrier prototype: a mutable accumulator of {source stages,
//! destination stages, per-resource memory barriers} not yet flushed into the
//! native command stream.
//!
//! The prototype exists only while recording.  At any point it holds every
//! barrier needed to order the not-yet-flushed commands after the already
//! flushed ones; it is emitted as one real pipeline barrier and cleared
//! whenever a command cannot be ordered by the queued batch, and once more
//! when building finalizes.  The per-resource barriers it holds are kept
//! disjoint per resource: a range never needs two barriers at one flush
//! point, because a second hazard on a range whose first hazard is still
//! pending forces a flush instead.

use crate::flags::{AccessFlags, DeviceRange, ImageLayout, PipelineStages};
use vstd::prelude::*;

verus! {

/// A memory barrier for a range of one buffer: work in `src_stages` making
/// `src_access` accesses must finish, and its writes become visible, before
/// work in `dst_stages` making `dst_access` accesses may start.
#[derive(Clone, Copy, Debug, PartialEq, Eq, Structural)]
pub struct BufferMemoryBarrier {
    pub buffer: u64,
    pub range: DeviceRange,
    pub src_stages: PipelineStages,
    pub src_access: AccessFlags,
    pub dst_stages: PipelineStages,
    pub dst_access: AccessFlags,
}

/// A memory barrier for a subresource range of one image; additionally
/// transitions the range from `old_layout` to `new_layout`.
#[derive(Clone, Copy, Debug, PartialEq, Eq, Structural)]
pub struct ImageMemoryBarrier {
    pub image: u64,
    pub range: DeviceRange,
    pub src_stages: PipelineStages,
    pub src_access: AccessFlags,
    pub dst_stages: PipelineStages,
    pub dst_access: AccessFlags,
    pub old_layout: ImageLayout,
    pub new_layout: ImageLayout,
}

/// One pipeline barrier that was flushed into the native stream: the
/// accumulated prototype and the command index it stands in front of.
#[derive(Clone, Debug)]
pub struct EmittedBarrier {
    pub position: usize,
    pub barrier: PendingBarrier,
}

/// The barrier prototype: the per-resource memory barriers accumulated since
/// the last flush, each carrying its source and destination stage scopes.
/// The whole prototype is emitted as one pipeline barrier whose global stage
/// masks are the unions [`PendingBarrier::total_src_stages`] and
/// [`PendingBarrier::total_dst_stages`].
#[derive(Clone, Debug)]
pub struct PendingBarrier {
    pub buffer_barriers: Vec<BufferMemoryBarrier>,
    pub image_barriers: Vec<ImageMemoryBarrier>,
}

impl PendingBarrier {
    /// Invariant: every held range is non-empty, and barriers of the same
    /// resource cover disjoint ranges.
    pub open spec fn wf(&self) -> bool {
        &&& forall|i: int|
            0 <= i < self.buffer_barriers@.len() ==> (#[trigger] self.buffer_barriers@[
            i]).range.wf()
        &&& forall|i: int, j: int|
            0 <= i < j < self.buffer_barriers@.len() && (#[trigger] self.buffer_barriers@[
            i]).buffer == (#[trigger] self.buffer_barriers@[j]).buffer
                ==> !self.buffer_barriers@[i].range.spec_overlaps(self.buffer_barriers@[j].range)
        &&& forall|i: int|
            0 <= i < self.image_barriers@.len() ==> (#[trigger] self.image_barriers@[i]).range.wf()
        &&& forall|i: int, j: int|
            0 <= i < j < self.image_barriers@.len() && (#[trigger] self.image_barriers@[i]).image
                == (#[trigger] self.image_barriers@[j]).image ==> !self.image_barriers@[
            i].range.spec_overlaps(self.image_barriers@[j].range)
    }

    /// True if some held buffer barrier covers point `k` of `buffer`.
    pub open spec fn covers_buf(&self, buffer: u64, k: int) -> bool {
        exists|i: int|
            0 <= i < self.buffer_barriers@.len() && (#[trigger] self.buffer_barriers@[i]).buffer
                == buffer && self.buffer_barriers@[i].range.spec_contains(k)
    }

    /// The index of the buffer barrier covering `(buffer, k)` (meaningful
    /// only under `covers_buf`).
    pub open spec fn buf_index_of(&self, buffer: u64, k: int) -> int {
        choose|i: int|
            0 <= i < self.buffer_barriers@.len() && (#[trigger] self.buffer_barriers@[i]).buffer
                == buffer && self.buffer_barriers@[i].range.spec_contains(k)
    }

    /// The buffer barrier covering point `k` of `buffer`, if any.
    pub open spec fn buf_at(&self, buffer: u64, k: int) -> Option<BufferMemoryBarrier> {
        if self.covers_buf(buffer, k) {
            Some(self.buffer_barriers@[self.buf_index_of(buffer, k)])
        } else {
            None
        }
    }

    /// True if some held image barrier covers point `k` of `image`.
    pub open spec fn covers_img(&self, image: u64, k: int) -> bool {
        exists|i: int|
            0 <= i < self.image_barriers@.len() && (#[trigger] self.image_barriers@[i]).image
                == image && self.image_barriers@[i].range.spec_contains(k)
    }

    /// The index of the image barrier covering `(image, k)` (meaningful only
    /// under `covers_img`).
    pub open spec fn img_index_of(&self, image: u64, k: int) -> int {
        choose|i: int|
            0 <= i < self.image_barriers@.len() && (#[trigger] self.image_barriers@[i]).image
                == image && self.image_barriers@[i].range.spec_contains(k)
    }

    /// The image barrier covering point `k` of `image`, if any.
    pub open spec fn img_at(&self, image: u64, k: int) -> Option<ImageMemoryBarrier> {
        if self.covers_img(image, k) {
            Some(self.image_barriers@[self.img_index_of(image, k)])
        } else {
            None
        }
    }

    /// In a well-formed prototype the barrier covering a point is unique.
    pub proof fn lemma_buf_at(&self, i: int, k: int)
        requires
            self.wf(),
            0 <= i < self.buffer_barriers@.len(),
            self.buffer_barriers@[i].range.spec_contains(k),
        ensures
            self.covers_buf(self.buffer_barriers@[i].buffer, k),
            self.buf_index_of(self.buffer_barriers@[i].buffer, k) == i,
            self.buf_at(self.buffer_barriers@[i].buffer, k) == Some(self.buffer_barriers@[i]),
    {
        let b = self.buffer_barriers@[i].buffer;
        assert(self.covers_buf(b, k));
        let j = self.buf_index_of(b, k);
        if i != j {
            assert(!self.buffer_barriers@[if i < j {
                i
            } else {
                j
            }].range.spec_overlaps(self.buffer_barriers@[if i < j {
                j
            } else {
                i
            }].range));
        }
    }

    /// In a well-formed prototype the barrier covering a point is unique.
    pub proof fn lemma_img_at(&self, i: int, k: int)
        requires
            self.wf(),
            0 <= i < self.image_barriers@.len(),
            self.image_barriers@[i].range.spec_contains(k),
        ensures
            self.covers_img(self.image_barriers@[i].image, k),
            self.img_index_of(self.image_barriers@[i].image, k) == i,
            self.img_at(self.image_barriers@[i].image, k) == Some(self.image_barriers@[i]),
    {
        let b = self.image_barriers@[i].image;
        assert(self.covers_img(b, k));
        let j = self.img_index_of(b, k);
        if i != j {
            assert(!self.image_barriers@[if i < j {
                i
            } else {
                j
            }].range.spec_overlaps(self.image_barriers@[if i < j {
                j
            } else {
                i
            }].range));
        }
    }

    /// True if nothing has been accumulated.
    pub open spec fn spec_is_empty(&self) -> bool {
        &&& self.buffer_barriers@.len() == 0
        &&& self.image_barriers@.len() == 0
    }

    /// An empty prototype.
    pub fn new() -> (r: Self)
        ensures
            r.wf(),
            r.spec_is_empty(),
            forall|b: u64, k: int| r.buf_at(b, k) is None,
            forall|b: u64, k: int| r.img_at(b, k) is None,
    {
        PendingBarrier { buffer_barriers: Vec::new(), image_barriers: Vec::new() }
    }

    /// True if nothing has been accumulated.
    pub fn is_empty(&self) -> (r: bool)
        ensures
            r == self.spec_is_empty(),
    {
        self.buffer_barriers.len() == 0 && self.image_barriers.len() == 0
    }

    /// Merges one buffer barrier into the prototype.  The caller guarantees
    /// the range is not yet covered for this buffer, so the barrier is simply
    /// added.
    pub fn merge_buffer_barrier(&mut self, bar: BufferMemoryBarrier)
        requires
            old(self).wf(),
            bar.range.wf(),
            forall|k: int| bar.range.spec_contains(k) ==> !old(self).covers_buf(bar.buffer, k),
        ensures
            final(self).wf(),
            final(self).buffer_barriers@ == old(self).buffer_barriers@.push(bar),
            final(self).image_barriers@ == old(self).image_barriers@,
            forall|k: int|
                bar.range.spec_contains(k) ==> final(self).buf_at(bar.buffer, k) == Some(bar),
            forall|b: u64, k: int|
                !(b == bar.buffer && bar.range.spec_contains(k)) ==> final(self).buf_at(b, k)
                    == old(self).buf_at(b, k),
            forall|b: u64, k: int| final(self).img_at(b, k) == old(self).img_at(b, k),
    {
        let ghost pre = *self;
        self.buffer_barriers.push(bar);
        proof {
            let n = pre.buffer_barriers@.len();
            assert forall|i: int, j: int|
                0 <= i < j < self.buffer_barriers@.len() && (#[trigger] self.buffer_barriers@[
                i]).buffer == (#[trigger] self.buffer_barriers@[j]).buffer implies !self.buffer_barriers@[
            i].range.spec_overlaps(self.buffer_barriers@[j].range) by {
                if j == n {
                    if self.buffer_barriers@[i].buffer == bar.buffer {
                        if self.buffer_barriers@[i].range.spec_overlaps(bar.range) {
                            let k = if self.buffer_barriers@[i].range.start >= bar.range.start {
                                self.buffer_barriers@[i].range.start as int
                            } else {
                                bar.range.start as int
                            };
                            assert(bar.range.spec_contains(k));
                            pre.lemma_buf_at(i, k);
                        }
                    }
                }
            }
            assert forall|k: int| bar.range.spec_contains(k) implies self.buf_at(bar.buffer, k)
                == Some(bar) by {
                self.lemma_buf_at(n as int, k);
            }
            assert forall|b: u64, k: int|
                !(b == bar.buffer && bar.range.spec_contains(k)) implies self.buf_at(b, k)
                == old(self).buf_at(b, k) by {
                if pre.covers_buf(b, k) {
                    let i = pre.buf_index_of(b, k);
                    pre.lemma_buf_at(i, k);
                    self.lemma_buf_at(i, k);
                } else {
                    assert(!self.covers_buf(b, k)) by {
                        if self.covers_buf(b, k) {
                            let i = self.buf_index_of(b, k);
                            assert(0 <= i < self.buffer_barriers@.len()
                                && self.buffer_barriers@[i].buffer == b
                                && self.buffer_barriers@[i].range.spec_contains(k));
                            assert(i != n);
                            assert(pre.covers_buf(b, k));
                        }
                    }
                }
            }
            assert forall|b: u64, k: int| self.img_at(b, k) == old(self).img_at(b, k) by {
                assert(self.image_barriers@ == pre.image_barriers@);
            }
        }
    }

    /// Merges one image barrier into the prototype.  The caller guarantees
    /// the range is not yet covered for this image, so the barrier is simply
    /// added.
    pub fn merge_image_barrier(&mut self, bar: ImageMemoryBarrier)
        requires
            old(self).wf(),
            bar.range.wf(),
            forall|k: int| bar.range.spec_contains(k) ==> !old(self).covers_img(bar.image, k),
        ensures
            final(self).wf(),
            final(self).image_barriers@ == old(self).image_barriers@.push(bar),
            final(self).buffer_barriers@ == old(self).buffer_barriers@,
            forall|k: int|
                bar.range.spec_contains(k) ==> final(self).img_at(bar.image, k) == Some(bar),
            forall|b: u64, k: int|
                !(b == bar.image && bar.range.spec_contains(k)) ==> final(self).img_at(b, k) == old(
                    self,
                ).img_at(b, k),
            forall|b: u64, k: int| final(self).buf_at(b, k) == old(self).buf_at(b, k),
    {
        let ghost pre = *self;
        self.image_barriers.push(bar);
        proof {
            let n = pre.image_barriers@.len();
            assert forall|i: int, j: int|
                0 <= i < j < self.image_barriers@.len() && (#[trigger] self.image_barriers@[
                i]).image == (#[trigger] self.image_barriers@[j]).image implies !self.image_barriers@[
            i].range.spec_overlaps(self.image_barriers@[j].range) by {
                if j == n {
                    if self.image_barriers@[i].image == bar.image {
                        if self.image_barriers@[i].range.spec_overlaps(bar.range) {
                            let k = if self.image_barriers@[i].range.start >= bar.range.start {
                                self.image_barriers@[i].range.start as int
                            } else {
                                bar.range.start as int
                            };
                            assert(bar.range.spec_contains(k));
                            pre.lemma_img_at(i, k);
                        }
                    }
                }
            }
            assert forall|k: int| bar.range.spec_contains(k) implies self.img_at(bar.image, k)
                == Some(bar) by {
                self.lemma_img_at(n as int, k);
            }
            assert forall|b: u64, k: int|
                !(b == bar.image && bar.range.spec_contains(k)) implies self.img_at(b, k) == old(
                    self,
                ).img_at(b, k) by {
                if pre.covers_img(b, k) {
                    let i = pre.img_index_of(b, k);
                    pre.lemma_img_at(i, k);
                    self.lemma_img_at(i, k);
                } else {
                    assert(!self.covers_img(b, k)) by {
                        if self.covers_img(b, k) {
                            let i = self.img_index_of(b, k);
                            assert(0 <= i < self.image_barriers@.len()
                                && self.image_barriers@[i].image == b
                                && self.image_barriers@[i].range.spec_contains(k));
                            assert(i != n);
                            assert(pre.covers_img(b, k));
                        }
                    }
                }
            }
            assert forall|b: u64, k: int| self.buf_at(b, k) == old(self).buf_at(b, k) by {
                assert(self.buffer_barriers@ == pre.buffer_barriers@);
            }
        }
    }
    /// The union of the source stage masks of all held barriers.
    pub open spec fn spec_total_src_stages(&self) -> u32 {
        acc_src_stages_bufs(self.buffer_barriers@) | acc_src_stages_imgs(self.image_barriers@)
    }

    /// The union of the destination stage masks of all held barriers.
    pub open spec fn spec_total_dst_stages(&self) -> u32 {
        acc_dst_stages_bufs(self.buffer_barriers@) | acc_dst_stages_imgs(self.image_barriers@)
    }

    /// The global source stage mask of the pipeline barrier this prototype
    /// will be emitted as.
    pub fn total_src_stages(&self) -> (r: PipelineStages)
        ensures
            r.bits == self.spec_total_src_stages(),
    {
        let mut bits: u32 = 0;
        let mut i: usize = 0;
        while i < self.buffer_barriers.len()
            invariant
                i <= self.buffer_barriers@.len(),
                bits == acc_src_stages_bufs(self.buffer_barriers@.take(i as int)),
            decreases self.buffer_barriers@.len() - i,
        {
            proof {
                assert(self.buffer_barriers@.take(i as int + 1).drop_last() =~= self.buffer_barriers@.take(i as int));
                assert(self.buffer_barriers@.take(i as int + 1).last() == self.buffer_barriers@[i as int]);
            }
            bits = bits | self.buffer_barriers[i].src_stages.bits;
            i = i + 1;
        }
        proof {
            assert(self.buffer_barriers@.take(i as int) =~= self.buffer_barriers@);
        }
        let mut j: usize = 0;
        let mut ibits: u32 = 0;
        while j < self.image_barriers.len()
            invariant
                j <= self.image_barriers@.len(),
                ibits == acc_src_stages_imgs(self.image_barriers@.take(j as int)),
            decreases self.image_barriers@.len() - j,
        {
            proof {
                assert(self.image_barriers@.take(j as int + 1).drop_last() =~= self.image_barriers@.take(j as int));
                assert(self.image_barriers@.take(j as int + 1).last() == self.image_barriers@[j as int]);
            }
            ibits = ibits | self.image_barriers[j].src_stages.bits;
            j = j + 1;
        }
        proof {
            assert(self.image_barriers@.take(j as int) =~= self.image_barriers@);
        }
        PipelineStages { bits: bits | ibits }
    }

    /// The global destination stage mask of the pipeline barrier this
    /// prototype will be emitted as.
    pub fn total_dst_stages(&self) -> (r: PipelineStages)
        ensures
            r.bits == self.spec_total_dst_stages(),
    {
        let mut bits: u32 = 0;
        let mut i: usize = 0;
        while i < self.buffer_barriers.len()
            invariant
                i <= self.buffer_barriers@.len(),
                bits == acc_dst_stages_bufs(self.buffer_barriers@.take(i as int)),
            decreases self.buffer_barriers@.len() - i,
        {
            proof {
                assert(self.buffer_barriers@.take(i as int + 1).drop_last() =~= self.buffer_barriers@.take(i as int));
                assert(self.buffer_barriers@.take(i as int + 1).last() == self.buffer_barriers@[i as int]);
            }
            bits = bits | self.buffer_barriers[i].dst_stages.bits;
            i = i + 1;
        }
        proof {
            assert(self.buffer_barriers@.take(i as int) =~= self.buffer_barriers@);
        }
        let mut j: usize = 0;
        let mut ibits: u32 = 0;
        while j < self.image_barriers.len()
            invariant
                j <= self.image_barriers@.len(),
                ibits == acc_dst_stages_imgs(self.image_barriers@.take(j as int)),
            decreases self.image_barriers@.len() - j,
        {
            proof {
                assert(self.image_barriers@.take(j as int + 1).drop_last() =~= self.image_barriers@.take(j as int));
                assert(self.image_barriers@.take(j as int + 1).last() == self.image_barriers@[j as int]);
            }
            ibits = ibits | self.image_barriers[j].dst_stages.bits;
            j = j + 1;
        }
        proof {
            assert(self.image_barriers@.take(j as int) =~= self.image_barriers@);
        }
        PipelineStages { bits: bits | ibits }
    }
}

/// Union of the source stage masks of a barrier list.
pub open spec fn acc_src_stages_bufs(bars: Seq<BufferMemoryBarrier>) -> u32
    decreases bars.len(),
{
    if bars.len() == 0 {
        0
    } else {
        acc_src_stages_bufs(bars.drop_last()) | bars.last().src_stages.bits
    }
}

/// Union of the destination stage masks of a barrier list.
pub open spec fn acc_dst_stages_bufs(bars: Seq<BufferMemoryBarrier>) -> u32
    decreases bars.len(),
{
    if bars.len() == 0 {
        0
    } else {
        acc_dst_stages_bufs(bars.drop_last()) | bars.last().dst_stages.bits
    }
}

/// Union of the source stage masks of an image barrier list.
pub open spec fn acc_src_stages_imgs(bars: Seq<ImageMemoryBarrier>) -> u32
    decreases bars.len(),
{
    if bars.len() == 0 {
        0
    } else {
        acc_src_stages_imgs(bars.drop_last()) | bars.last().src_stages.bits
    }
}

/// Union of the destination stage masks of an image barrier list.
pub open spec fn acc_dst_stages_imgs(bars: Seq<ImageMemoryBarrier>) -> u32
    decreases bars.len(),
{
    if bars.len() == 0 {
        0
    } else {
        acc_dst_stages_imgs(bars.drop_last()) | bars.last().dst_stages.bits
    }
}

} // verus!
