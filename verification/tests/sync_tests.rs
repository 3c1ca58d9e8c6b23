use vulkano::builder::{
    SyncCommandBufferBuilder, SyncCommandBufferBuilderBindDescriptorSets,
    SyncCommandBufferBuilderBindVertexBuffer, SyncCommandBufferBuilderExecuteCommands,
};
use vulkano::errors::{AccessCheckError, AccessError, SyncCommandBufferBuilderError};
use vulkano::flags::{
    DeviceRange, ImageLayout, ACCESS_TRANSFER_READ, ACCESS_TRANSFER_WRITE, STAGE_TRANSFER,
};
use vulkano::future::NoPendingWork;
use vulkano::locks::ResourceStates;
use vulkano::state::{DescriptorSet, PipelineBindPoint, PipelineLayout};

fn rg(start: u64, end: u64) -> DeviceRange {
    DeviceRange { start, end }
}

#[test]
fn basic_creation() {
    let builder = SyncCommandBufferBuilder::new(1);
    let primary = builder.build().unwrap();
    assert_eq!(primary.num_commands(), 0);
    assert_eq!(primary.num_buffers(), 0);
    assert_eq!(primary.num_images(), 0);
    assert_eq!(primary.batch_boundaries().len(), 0);
    assert_eq!(primary.num_emitted_barriers(), 0);
}

#[test]
fn secondary_conflicting_writes() {
    // Two secondary command buffers that both write to the same buffer.
    let buf: u64 = 100;
    let secondary: Vec<_> = (0..2)
        .map(|i| {
            let mut b = SyncCommandBufferBuilder::new(10 + i);
            b.fill_buffer(buf, rg(0, 4), 42u32);
            b.build().unwrap()
        })
        .collect();

    {
        // Add both secondary command buffers using separate execute batches.
        let mut builder = SyncCommandBufferBuilder::new(1);
        for cb in secondary.iter() {
            let mut ec = SyncCommandBufferBuilderExecuteCommands::new();
            ec.add(cb);
            ec.submit(&mut builder);
        }
        let primary = builder.build().unwrap();
        let names: Vec<_> = (0..primary.num_commands())
            .map(|i| primary.command_name(i))
            .collect();

        // Ensure that the builder added a barrier between the two writes.
        assert_eq!(&names, &["execute_commands", "execute_commands"]);
        assert_eq!(primary.batch_boundaries(), &vec![0usize, 1usize]);
    }

    {
        // Add a single execute batch for all secondary command buffers at
        // once: the intra-batch hazard is left to the caller and no barrier
        // is inserted.
        let mut builder = SyncCommandBufferBuilder::new(2);
        let mut ec = SyncCommandBufferBuilderExecuteCommands::new();
        for cb in secondary.iter() {
            ec.add(cb);
        }
        ec.submit(&mut builder);
        let primary = builder.build().unwrap();
        assert_eq!(primary.batch_boundaries().len(), 0);
        assert_eq!(primary.num_emitted_barriers(), 0);
    }
}

#[test]
fn vertex_buffer_binding() {
    let mut sync = SyncCommandBufferBuilder::new(1);
    let buf: u64 = 7;
    let mut buf_builder = SyncCommandBufferBuilderBindVertexBuffer::new();
    buf_builder.add(buf);
    buf_builder.submit(&mut sync, 1);

    assert!(sync.state().vertex_buffer(0).is_none());
    assert!(sync.state().vertex_buffer(1).is_some());
    assert!(sync.state().vertex_buffer(2).is_none());
}

#[test]
fn descriptor_set_binding() {
    let mut sync = SyncCommandBufferBuilder::new(1);
    let set_layout: u64 = 1;
    let pipeline_layout = PipelineLayout { handle: 1, set_layouts: vec![set_layout, set_layout] };
    let set = DescriptorSet { set: 10, layout: set_layout };

    let mut set_builder = SyncCommandBufferBuilderBindDescriptorSets::new();
    set_builder.add(set);
    set_builder.submit(
        &mut sync,
        PipelineBindPoint::Graphics,
        PipelineLayout { handle: 1, set_layouts: vec![set_layout, set_layout] },
        1,
    );

    assert!(sync.state().descriptor_set(PipelineBindPoint::Compute, 0).is_none());
    assert!(sync.state().descriptor_set(PipelineBindPoint::Graphics, 0).is_none());
    assert!(sync.state().descriptor_set(PipelineBindPoint::Graphics, 1).is_some());
    assert!(sync.state().descriptor_set(PipelineBindPoint::Graphics, 2).is_none());

    let mut set_builder = SyncCommandBufferBuilderBindDescriptorSets::new();
    set_builder.add(set);
    set_builder.submit(&mut sync, PipelineBindPoint::Graphics, pipeline_layout, 0);

    assert!(sync.state().descriptor_set(PipelineBindPoint::Graphics, 0).is_some());
    assert!(sync.state().descriptor_set(PipelineBindPoint::Graphics, 1).is_some());

    // A pipeline layout that is incompatible below the first set disturbs
    // the previously bound sets.
    let other_layout: u64 = 2;
    let pipeline_layout = PipelineLayout { handle: 2, set_layouts: vec![other_layout, set_layout] };

    let mut set_builder = SyncCommandBufferBuilderBindDescriptorSets::new();
    set_builder.add(set);
    set_builder.submit(&mut sync, PipelineBindPoint::Graphics, pipeline_layout, 1);

    assert!(sync.state().descriptor_set(PipelineBindPoint::Graphics, 0).is_none());
    assert!(sync.state().descriptor_set(PipelineBindPoint::Graphics, 1).is_some());
}

#[test]
fn write_then_read_one_barrier() {
    // A write followed by an overlapping read: one pipeline barrier, from
    // the write's scopes to the read's.
    let mut b = SyncCommandBufferBuilder::new(1);
    b.fill_buffer(5, rg(0, 64), 0);
    b.copy_buffer(5, rg(16, 32), 6, rg(0, 16));
    let cb = b.build().unwrap();
    assert_eq!(cb.batch_boundaries(), &vec![0usize, 1usize]);
    assert_eq!(cb.num_emitted_barriers(), 1);
    let eb = cb.emitted_barrier(0);
    assert_eq!(eb.position, 1);
    assert_eq!(eb.barrier.buffer_barriers.len(), 1);
    let bar = eb.barrier.buffer_barriers[0];
    assert_eq!(bar.buffer, 5);
    assert_eq!((bar.range.start, bar.range.end), (16, 32));
    assert_eq!(bar.src_stages.bits, STAGE_TRANSFER);
    assert_eq!(bar.src_access.bits, ACCESS_TRANSFER_WRITE);
    assert_eq!(bar.dst_stages.bits, STAGE_TRANSFER);
    assert_eq!(bar.dst_access.bits, ACCESS_TRANSFER_READ);
    assert_eq!(eb.barrier.total_src_stages().bits, STAGE_TRANSFER);
    assert_eq!(eb.barrier.total_dst_stages().bits, STAGE_TRANSFER);
}

#[test]
fn read_then_read_no_barrier() {
    // Two consecutive reads of the same range merge without a barrier.
    let mut b = SyncCommandBufferBuilder::new(1);
    b.fill_buffer(5, rg(0, 64), 0);
    b.copy_buffer(5, rg(0, 64), 6, rg(0, 64));
    b.copy_buffer(5, rg(0, 64), 7, rg(0, 64));
    let cb = b.build().unwrap();
    // one barrier for the write-read hazard, none for the second read
    assert_eq!(cb.num_emitted_barriers(), 1);
    assert_eq!(cb.batch_boundaries(), &vec![0usize, 1usize]);
}

#[test]
fn image_copy_and_layout_check() {
    let mut b = SyncCommandBufferBuilder::new(1);
    b.copy_image(8, rg(0, 4), 9, rg(0, 4));
    let cb = b.build().unwrap();
    // the destination was written in transfer-destination layout
    let r = cb.check_image_access(9, rg(0, 4), true, ImageLayout::TransferDstOptimal, 0);
    match r {
        Ok(Some((stages, access))) => {
            assert_eq!(stages.bits, STAGE_TRANSFER);
            assert_eq!(access.bits, ACCESS_TRANSFER_WRITE);
        }
        _ => panic!(),
    }
    // expecting another layout is denied with the recorded layout
    let r = cb.check_image_access(9, rg(0, 4), true, ImageLayout::General, 0);
    match r {
        Err(AccessCheckError::Denied(AccessError::UnexpectedImageLayout { allowed, requested })) => {
            assert_eq!(allowed, ImageLayout::TransferDstOptimal);
            assert_eq!(requested, ImageLayout::General);
        }
        _ => panic!(),
    }
    // an untracked image answers "unknown"
    let r = cb.check_image_access(12, rg(0, 4), false, ImageLayout::Undefined, 0);
    assert!(matches!(r, Err(AccessCheckError::Unknown)));
}

#[test]
fn buffer_access_check() {
    let mut b = SyncCommandBufferBuilder::new(1);
    b.fill_buffer(5, rg(0, 64), 0);
    b.copy_buffer(5, rg(0, 64), 6, rg(0, 64));
    let cb = b.build().unwrap();
    // the source ends shared: an exclusive query cannot be answered
    let r = cb.check_buffer_access(5, rg(0, 64), true, 0);
    assert!(matches!(r, Err(AccessCheckError::Unknown)));
    // a shared query returns the recorded scopes
    let r = cb.check_buffer_access(5, rg(0, 64), false, 0);
    match r {
        Ok(Some((stages, access))) => {
            assert_eq!(stages.bits, STAGE_TRANSFER);
            assert_eq!(access.bits, ACCESS_TRANSFER_READ);
        }
        _ => panic!(),
    }
    // an untracked buffer answers "unknown"
    let r = cb.check_buffer_access(99, rg(0, 4), false, 0);
    assert!(matches!(r, Err(AccessCheckError::Unknown)));
}

#[test]
fn exclusive_lock_conflict_and_release() {
    // Two finalized command buffers both writing the same range: the second
    // lock fails while the first is held, and succeeds after unlock.
    let mk = |inner: u64| {
        let mut b = SyncCommandBufferBuilder::new(inner);
        b.fill_buffer(5, rg(0, 64), 0);
        b.build().unwrap()
    };
    let cb1 = mk(1);
    let cb2 = mk(2);
    let future = NoPendingWork {};
    let mut states = ResourceStates::new();

    assert!(cb1.lock_submit(&future, 0, &mut states).is_ok());
    let r = cb2.lock_submit(&future, 0, &mut states);
    match r {
        Err(vulkano::errors::CommandBufferExecError::AccessError {
            error,
            command_name,
            command_param,
            command_offset,
        }) => {
            assert_eq!(error, AccessError::AlreadyInUse);
            assert_eq!(command_name, "fill_buffer");
            assert_eq!(command_param, vulkano::resource::ParamName::DstBuffer);
            assert_eq!(command_offset, 0);
        }
        _ => panic!(),
    }
    cb1.unlock(&mut states);
    assert!(cb2.lock_submit(&future, 0, &mut states).is_ok());
    cb2.unlock(&mut states);
}

#[test]
fn shared_locks_coexist() {
    // Two command buffers that only read may both hold their locks.
    let mk = |inner: u64| {
        let mut b = SyncCommandBufferBuilder::new(inner);
        // a copy whose source is the shared buffer; destinations differ
        b.copy_buffer(5, rg(0, 64), 100 + inner, rg(0, 64));
        b.build().unwrap()
    };
    let cb1 = mk(1);
    let cb2 = mk(2);
    let future = NoPendingWork {};
    let mut states = ResourceStates::new();
    assert!(cb1.lock_submit(&future, 0, &mut states).is_ok());
    // cb2 writes its own destination but only reads buffer 5
    let r = cb2.lock_submit(&future, 0, &mut states);
    assert!(r.is_ok());
    cb1.unlock(&mut states);
    cb2.unlock(&mut states);
}

#[test]
fn enumeration_accumulates_accesses() {
    // Two commands touching one buffer: the enumeration lists it once, with
    // the union of both accesses and the covering range.
    let mut b = SyncCommandBufferBuilder::new(1);
    b.fill_buffer(5, rg(0, 32), 0);
    b.copy_buffer(5, rg(16, 64), 6, rg(0, 48));
    let cb = b.build().unwrap();
    assert_eq!(cb.num_buffers(), 2);
    let (id, range, memory) = cb.buffer(0).unwrap();
    assert_eq!(id, 5);
    assert_eq!((range.start, range.end), (0, 64));
    assert_eq!(memory.stages.bits, STAGE_TRANSFER);
    assert_eq!(memory.access.bits, ACCESS_TRANSFER_WRITE | ACCESS_TRANSFER_READ);
    assert!(memory.exclusive);
    let (id, range, memory) = cb.buffer(1).unwrap();
    assert_eq!(id, 6);
    assert_eq!((range.start, range.end), (0, 48));
    assert!(memory.exclusive);
    assert!(cb.buffer(2).is_none());
}

#[test]
fn malformed_range_fails_build() {
    let mut b = SyncCommandBufferBuilder::new(1);
    b.fill_buffer(5, rg(8, 8), 0);
    let r = b.build();
    match r {
        Err(SyncCommandBufferBuilderError::MalformedResourceRange {
            command_name,
            command_param,
            range,
        }) => {
            assert_eq!(command_name, "fill_buffer");
            assert_eq!(command_param, vulkano::resource::ParamName::DstBuffer);
            assert_eq!((range.start, range.end), (8, 8));
        }
        Ok(_) => panic!(),
    }
}

#[test]
fn loading_error_messages() {
    let e = vulkano::errors::LoadingError::LibraryLoadFailure(String::from("no such file"));
    assert_eq!(e.message(), "failed to load the Vulkan shared library");
    let e = vulkano::errors::LoadingError::MissingEntryPoint(String::from("vkGetInstanceProcAddr"));
    assert_eq!(
        e.message(),
        "one of the entry points required to be supported by the Vulkan implementation is missing"
    );
}
