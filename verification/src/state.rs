//! Dynamic binding state tracked while recording: which vertex buffers and
//! descriptor sets are currently bound.
//!
//! Descriptor set bindings follow the native compatibility rule: binding with
//! a pipeline layout whose lower set layouts differ from those of the layout
//! used for the previous bind disturbs (unbinds) the previously bound sets.

use vstd::prelude::*;
use vstd::pervasive::VecAdditionalExecFns;

verus! {

/// Which pipeline family a descriptor set bind targets.
#[derive(Clone, Copy, Debug, PartialEq, Eq, Structural)]
pub enum PipelineBindPoint {
    Graphics,
    Compute,
}

/// A descriptor set: the set's stable handle and the handle of the layout it
/// was allocated with.
#[derive(Clone, Copy, Debug, PartialEq, Eq, Structural)]
pub struct DescriptorSet {
    pub set: u64,
    pub layout: u64,
}

/// A pipeline layout: its stable handle and the layout handles of its
/// descriptor set slots, in slot order.
#[derive(Clone, Debug, PartialEq, Eq)]
pub struct PipelineLayout {
    pub handle: u64,
    pub set_layouts: Vec<u64>,
}

/// Two pipeline layouts are compatible for the first `n` set slots when those
/// slots carry equal set layouts.
pub open spec fn layouts_compatible_spec(a: Seq<u64>, b: Seq<u64>, n: int) -> bool {
    &&& a.len() >= n
    &&& b.len() >= n
    &&& forall|i: int| 0 <= i < n ==> a[i] == b[i]
}

/// The other bind point.
pub open spec fn other_bind_point(p: PipelineBindPoint) -> PipelineBindPoint {
    match p {
        PipelineBindPoint::Graphics => PipelineBindPoint::Compute,
        PipelineBindPoint::Compute => PipelineBindPoint::Graphics,
    }
}

/// Descriptor set bindings of one bind point.
struct DescriptorSetState {
    sets: Vec<Option<DescriptorSet>>,
    layout: Option<PipelineLayout>,
}

impl DescriptorSetState {
    spec fn spec_set(&self, num: int) -> Option<DescriptorSet> {
        if 0 <= num < self.sets@.len() {
            self.sets@[num]
        } else {
            None
        }
    }

    spec fn spec_layouts(&self) -> Option<Seq<u64>> {
        match self.layout {
            Some(ref pl) => Some(pl.set_layouts@),
            None => None,
        }
    }

    /// Whether a bind at `first_set` with `layouts` disturbs this state.
    spec fn spec_disturbed(&self, layouts: Seq<u64>, first_set: int) -> bool {
        match self.spec_layouts() {
            Some(prev) => !layouts_compatible_spec(prev, layouts, first_set),
            None => false,
        }
    }

    fn bind(&mut self, pipeline_layout: PipelineLayout, first_set: u32, sets: &Vec<DescriptorSet>)
        requires
            first_set as int + sets@.len() <= u32::MAX as int,
        ensures
            forall|n: int|
                first_set <= n < first_set as int + sets@.len() ==> final(self).spec_set(n) == Some(
                    sets@[n - first_set],
                ),
            forall|n: int|
                !(first_set <= n < first_set as int + sets@.len()) ==> final(self).spec_set(n) == (
                if old(self).spec_disturbed(pipeline_layout.set_layouts@, first_set as int) {
                    None::<DescriptorSet>
                } else {
                    old(self).spec_set(n)
                }),
            final(self).spec_layouts() == Some(pipeline_layout.set_layouts@),
    {
        let disturb: bool = match &self.layout {
            Some(prev) => !layouts_compatible(
                &prev.set_layouts,
                &pipeline_layout.set_layouts,
                first_set,
            ),
            None => false,
        };
        if disturb {
            self.sets.clear();
        }
        let ghost cleared = *self;
        let needed: usize = first_set as usize + sets.len();
        while self.sets.len() < needed
            invariant
                cleared.sets@.len() <= self.sets@.len(),
                forall|b: int|
                    0 <= b < cleared.sets@.len() && b < self.sets@.len() ==> self.sets@[b]
                        == cleared.sets@[b],
                forall|b: int|
                    cleared.sets@.len() <= b < self.sets@.len() ==> self.sets@[b] is None,
                self.layout == cleared.layout,
            decreases needed - self.sets.len(),
        {
            self.sets.push(None);
        }
        let ghost grown = *self;
        let mut i: usize = 0;
        while i < sets.len()
            invariant
                needed == first_set as usize + sets@.len(),
                self.sets@.len() == grown.sets@.len(),
                grown.sets@.len() >= needed,
                i <= sets@.len(),
                forall|n: int|
                    first_set <= n < first_set + i ==> self.sets@[n] == Some(sets@[n - first_set]),
                forall|n: int|
                    0 <= n < self.sets@.len() && !(first_set <= n < first_set + i)
                        ==> self.sets@[n] == grown.sets@[n],
                self.layout == grown.layout,
            decreases sets@.len() - i,
        {
            let slot: usize = first_set as usize + i;
            self.sets.set(slot, Some(sets[i]));
            i = i + 1;
        }
        self.layout = Some(pipeline_layout);
        proof {
            assert forall|n: int| !(first_set <= n < first_set as int + sets@.len()) implies self.spec_set(n) == (
            if old(self).spec_disturbed(pipeline_layout.set_layouts@, first_set as int) {
                None::<DescriptorSet>
            } else {
                old(self).spec_set(n)
            }) by {
                assert(disturb == old(self).spec_disturbed(
                    pipeline_layout.set_layouts@,
                    first_set as int,
                ));
                if disturb {
                    assert(cleared.sets@.len() == 0);
                } else {
                    assert(cleared == *old(self));
                }
                if 0 <= n < self.sets@.len() {
                    assert(self.sets@[n] == grown.sets@[n]);
                    if n < cleared.sets@.len() {
                        assert(grown.sets@[n] == cleared.sets@[n]);
                    } else {
                        assert(grown.sets@[n] is None);
                    }
                }
            }
        }
    }
}

/// The binding state of an in-progress command buffer.
pub struct CommandBufferState {
    vertex_buffers: Vec<Option<u64>>,
    graphics_sets: DescriptorSetState,
    compute_sets: DescriptorSetState,
}

impl CommandBufferState {
    /// The vertex buffer bound at `binding`, if any.
    pub closed spec fn spec_vertex_buffer(&self, binding: int) -> Option<u64> {
        if 0 <= binding < self.vertex_buffers@.len() {
            self.vertex_buffers@[binding]
        } else {
            None
        }
    }

    /// The descriptor set bound at slot `num` of `bind_point`, if any.
    pub closed spec fn spec_descriptor_set(&self, bind_point: PipelineBindPoint, num: int) -> Option<
        DescriptorSet,
    > {
        match bind_point {
            PipelineBindPoint::Graphics => self.graphics_sets.spec_set(num),
            PipelineBindPoint::Compute => self.compute_sets.spec_set(num),
        }
    }

    /// The set layouts of the pipeline layout used by the latest descriptor
    /// set bind at `bind_point`, if any.
    pub closed spec fn spec_bound_layouts(&self, bind_point: PipelineBindPoint) -> Option<Seq<u64>> {
        match bind_point {
            PipelineBindPoint::Graphics => self.graphics_sets.spec_layouts(),
            PipelineBindPoint::Compute => self.compute_sets.spec_layouts(),
        }
    }

    /// Whether a bind at `bind_point` with `layouts` starting at `first_set`
    /// disturbs the previously bound sets there.
    pub open spec fn spec_bind_disturbs(
        &self,
        bind_point: PipelineBindPoint,
        layouts: Seq<u64>,
        first_set: int,
    ) -> bool {
        match self.spec_bound_layouts(bind_point) {
            Some(prev) => !layouts_compatible_spec(prev, layouts, first_set),
            None => false,
        }
    }

    /// Fresh state: nothing is bound.
    pub fn new() -> (r: Self)
        ensures
            forall|b: int| r.spec_vertex_buffer(b) is None,
            forall|p: PipelineBindPoint, n: int| r.spec_descriptor_set(p, n) is None,
            forall|p: PipelineBindPoint| r.spec_bound_layouts(p) is None,
    {
        CommandBufferState {
            vertex_buffers: Vec::new(),
            graphics_sets: DescriptorSetState { sets: Vec::new(), layout: None },
            compute_sets: DescriptorSetState { sets: Vec::new(), layout: None },
        }
    }

    /// The vertex buffer bound at `binding`, if any.
    pub fn vertex_buffer(&self, binding: u32) -> (r: Option<u64>)
        ensures
            r == self.spec_vertex_buffer(binding as int),
    {
        if (binding as usize) < self.vertex_buffers.len() {
            self.vertex_buffers[binding as usize]
        } else {
            None
        }
    }

    /// The descriptor set bound at slot `num` of `bind_point`, if any.
    pub fn descriptor_set(&self, bind_point: PipelineBindPoint, num: u32) -> (r: Option<
        DescriptorSet,
    >)
        ensures
            r == self.spec_descriptor_set(bind_point, num as int),
    {
        match bind_point {
            PipelineBindPoint::Graphics => {
                if (num as usize) < self.graphics_sets.sets.len() {
                    self.graphics_sets.sets[num as usize]
                } else {
                    None
                }
            },
            PipelineBindPoint::Compute => {
                if (num as usize) < self.compute_sets.sets.len() {
                    self.compute_sets.sets[num as usize]
                } else {
                    None
                }
            },
        }
    }

    /// Binds `buffers` to the consecutive binding slots starting at
    /// `first_binding`; other slots are untouched.
    pub(crate) fn bind_vertex_buffers(&mut self, first_binding: u32, buffers: &Vec<u64>)
        requires
            first_binding as int + buffers@.len() <= u32::MAX as int,
        ensures
            forall|b: int|
                first_binding <= b < first_binding as int + buffers@.len() ==> final(self).spec_vertex_buffer(b) == Some(buffers@[b - first_binding]),
            forall|b: int|
                !(first_binding <= b < first_binding as int + buffers@.len()) ==> final(self).spec_vertex_buffer(b) == old(self).spec_vertex_buffer(b),
            forall|p: PipelineBindPoint, n: int|
                final(self).spec_descriptor_set(p, n) == old(self).spec_descriptor_set(p, n),
            forall|p: PipelineBindPoint|
                final(self).spec_bound_layouts(p) == old(self).spec_bound_layouts(p),
    {
        let ghost orig = *self;
        let needed: usize = first_binding as usize + buffers.len();
        while self.vertex_buffers.len() < needed
            invariant
                forall|b: int|
                    0 <= b < orig.vertex_buffers@.len() && b < self.vertex_buffers@.len()
                        ==> self.vertex_buffers@[b] == orig.vertex_buffers@[b],
                forall|b: int|
                    orig.vertex_buffers@.len() <= b < self.vertex_buffers@.len()
                        ==> self.vertex_buffers@[b] is None,
                self.vertex_buffers@.len() >= orig.vertex_buffers@.len(),
                self.graphics_sets == orig.graphics_sets,
                self.compute_sets == orig.compute_sets,
            decreases needed - self.vertex_buffers.len(),
        {
            self.vertex_buffers.push(None);
        }
        let ghost grown = *self;
        proof {
            assert(forall|b: int|
                !(0 <= b < orig.vertex_buffers@.len()) && 0 <= b < grown.vertex_buffers@.len()
                    ==> grown.vertex_buffers@[b] is None);
        }
        let mut i: usize = 0;
        while i < buffers.len()
            invariant
                needed == first_binding as usize + buffers@.len(),
                self.vertex_buffers@.len() == grown.vertex_buffers@.len(),
                grown.vertex_buffers@.len() >= needed,
                i <= buffers@.len(),
                forall|b: int|
                    first_binding <= b < first_binding + i ==> self.vertex_buffers@[b] == Some(
                        buffers@[b - first_binding],
                    ),
                forall|b: int|
                    0 <= b < self.vertex_buffers@.len() && !(first_binding <= b < first_binding
                        + i) ==> self.vertex_buffers@[b] == grown.vertex_buffers@[b],
                self.graphics_sets == grown.graphics_sets,
                self.compute_sets == grown.compute_sets,
            decreases buffers@.len() - i,
        {
            let slot: usize = first_binding as usize + i;
            self.vertex_buffers.set(slot, Some(buffers[i]));
            i = i + 1;
        }
        proof {
            assert forall|b: int|
                !(first_binding <= b < first_binding as int + buffers@.len()) implies self.spec_vertex_buffer(b) == old(self).spec_vertex_buffer(b) by {
                if 0 <= b < self.vertex_buffers@.len() {
                    assert(self.vertex_buffers@[b] == grown.vertex_buffers@[b]);
                    if b < orig.vertex_buffers@.len() {
                        assert(grown.vertex_buffers@[b] == orig.vertex_buffers@[b]);
                    } else {
                        assert(grown.vertex_buffers@[b] is None);
                    }
                }
            }
        }
    }

    /// Binds `sets` to the consecutive set slots of `bind_point` starting at
    /// `first_set`, using `pipeline_layout`.  If a previous bind at this bind
    /// point used a layout incompatible with `pipeline_layout` on the slots
    /// below `first_set`, all previously bound sets there are disturbed
    /// (unbound) first.  The other bind point and the vertex buffers are
    /// untouched.
    pub(crate) fn bind_descriptor_sets(
        &mut self,
        bind_point: PipelineBindPoint,
        pipeline_layout: PipelineLayout,
        first_set: u32,
        sets: &Vec<DescriptorSet>,
    )
        requires
            first_set as int + sets@.len() <= u32::MAX as int,
        ensures
            forall|n: int|
                first_set <= n < first_set as int + sets@.len() ==> final(self).spec_descriptor_set(
                    bind_point,
                    n,
                ) == Some(sets@[n - first_set]),
            forall|n: int|
                !(first_set <= n < first_set as int + sets@.len()) ==> final(self).spec_descriptor_set(bind_point, n) == (
                if old(self).spec_bind_disturbs(
                    bind_point,
                    pipeline_layout.set_layouts@,
                    first_set as int,
                ) {
                    None::<DescriptorSet>
                } else {
                    old(self).spec_descriptor_set(bind_point, n)
                }),
            final(self).spec_bound_layouts(bind_point) == Some(pipeline_layout.set_layouts@),
            forall|n: int|
                final(self).spec_descriptor_set(other_bind_point(bind_point), n) == old(
                    self,
                ).spec_descriptor_set(other_bind_point(bind_point), n),
            final(self).spec_bound_layouts(other_bind_point(bind_point)) == old(
                self,
            ).spec_bound_layouts(other_bind_point(bind_point)),
            forall|b: int| final(self).spec_vertex_buffer(b) == old(self).spec_vertex_buffer(b),
    {
        match bind_point {
            PipelineBindPoint::Graphics => {
                self.graphics_sets.bind(pipeline_layout, first_set, sets);
            },
            PipelineBindPoint::Compute => {
                self.compute_sets.bind(pipeline_layout, first_set, sets);
            },
        }
    }
}

/// True if `a` and `b` agree on their first `n` set layouts (and both have at
/// least `n`).
fn layouts_compatible(a: &Vec<u64>, b: &Vec<u64>, n: u32) -> (r: bool)
    ensures
        r == layouts_compatible_spec(a@, b@, n as int),
{
    if a.len() < n as usize || b.len() < n as usize {
        return false;
    }
    let mut i: usize = 0;
    while i < n as usize
        invariant
            i <= n as usize,
            a@.len() >= n as int,
            b@.len() >= n as int,
            forall|j: int| 0 <= j < i ==> a@[j] == b@[j],
        decreases n as usize - i,
    {
        if a[i] != b[i] {
            return false;
        }
        i = i + 1;
    }
    true
}

} // verus!
