use render_graph::camera::{Camera, MINUS_ONE_BITS, ONE_BITS, ZERO_BITS};
use render_graph::graph::{RenderGraph, TargetError};
use render_graph::types::{
    BufferDesc, Extent3d, NodeType, PipelineHandle, ResourceHandle, SlotHandle, TextureDesc, TextureDimension,
};

fn tex(width: u32) -> TextureDesc {
    TextureDesc {
        size: Extent3d { width, height: 4, depth_or_array_layers: 1 },
        dimension: TextureDimension::D2,
        format: wgpu::TextureFormat::Rgba8Unorm,
        usage: wgpu::TextureUsages::RENDER_ATTACHMENT.bits(),
    }
}

fn buf(size: u64) -> BufferDesc {
    BufferDesc { size, usage: wgpu::BufferUsages::STORAGE.bits(), mapped_at_creation: false }
}

fn pass(g: &mut RenderGraph<u32>, name: &str, reads: &[ResourceHandle], writes: &[ResourceHandle], work: u32) {
    let mut b = g.add_pass(name, NodeType::RenderPass);
    for r in reads {
        b = b.read(*r);
    }
    for w in writes {
        b = b.write(*w);
    }
    b.execute(work);
}

#[test]
fn empty_graph_has_empty_order() {
    let g: RenderGraph<u32> = RenderGraph::new();
    assert_eq!(g.get_node_order(), Ok(vec![]));
}

#[test]
fn added_handles_are_fresh_and_read_back() {
    let mut g: RenderGraph<u32> = RenderGraph::new();
    let a = g.add_texture(tex(8));
    let b = g.add_texture(tex(8));
    let c = g.add_texture(tex(16));
    assert_ne!(a, b);
    assert_ne!(b, c);
    let (ResourceHandle::Texture(a), ResourceHandle::Texture(b), ResourceHandle::Texture(c)) = (a, b, c) else {
        panic!("add_texture must hand out texture handles");
    };
    assert_eq!(g.texture_desc(a).unwrap().size.width, 8);
    assert_eq!(g.texture_desc(b).unwrap().size.width, 8);
    assert_eq!(g.texture_desc(c).unwrap().size.width, 16);
    assert_eq!(g.texture_desc(c).unwrap().format, wgpu::TextureFormat::Rgba8Unorm);
}

#[test]
fn handles_from_another_graph_are_not_found() {
    let mut g: RenderGraph<u32> = RenderGraph::new();
    let mut other: RenderGraph<u32> = RenderGraph::new();
    g.add_buffer(buf(4));
    other.add_buffer(buf(4));
    let foreign = other.add_buffer(buf(8));
    let ResourceHandle::Buffer(foreign) = foreign else { panic!("expected a buffer handle") };
    assert!(g.buffer_desc(foreign).is_none());
    assert_eq!(other.buffer_desc(foreign).unwrap().size, 8);
}

#[test]
fn slot_keys_have_odd_versions_and_distinct_indices() {
    let mut g: RenderGraph<u32> = RenderGraph::new();
    let ResourceHandle::Buffer(first) = g.add_buffer(buf(1)) else { panic!() };
    let ResourceHandle::Buffer(second) = g.add_buffer(buf(1)) else { panic!() };
    let (k1, k2) = (first.as_ffi(), second.as_ffi());
    assert_eq!((k1 >> 32) % 2, 1);
    assert_eq!((k2 >> 32) % 2, 1);
    assert_ne!(k1 & 0xffff_ffff, k2 & 0xffff_ffff);
}

#[test]
fn writer_runs_before_reader() {
    let mut g: RenderGraph<u32> = RenderGraph::new();
    let r = g.add_texture(tex(8));
    pass(&mut g, "reader", &[r], &[], 0);
    pass(&mut g, "writer", &[], &[r], 1);
    assert_eq!(g.get_node_order(), Ok(vec![1, 0]));
}

#[test]
fn ready_passes_run_first_in_first_out() {
    let mut g: RenderGraph<u32> = RenderGraph::new();
    let a = g.add_texture(tex(1));
    let b = g.add_buffer(buf(2));
    pass(&mut g, "uses a", &[a], &[], 0);
    pass(&mut g, "makes b", &[], &[b], 1);
    pass(&mut g, "makes a from b", &[b], &[a], 2);
    pass(&mut g, "free", &[], &[], 3);
    assert_eq!(g.get_node_order(), Ok(vec![1, 3, 2, 0]));
}

#[test]
fn every_writer_runs_before_the_reader() {
    let mut g: RenderGraph<u32> = RenderGraph::new();
    let r = g.add_buffer(buf(2));
    pass(&mut g, "reader", &[r], &[], 0);
    pass(&mut g, "first writer", &[], &[r], 1);
    pass(&mut g, "second writer", &[], &[r], 2);
    assert_eq!(g.get_node_order(), Ok(vec![1, 2, 0]));
}

#[test]
fn writers_of_what_a_pass_reads_run_before_it() {
    let mut g: RenderGraph<u32> = RenderGraph::new();
    let a = g.add_buffer(buf(4));
    let b = g.add_buffer(buf(8));
    pass(&mut g, "P0", &[a], &[], 0);
    pass(&mut g, "P1", &[b], &[a], 1);
    pass(&mut g, "P2", &[], &[a], 2);
    pass(&mut g, "P3", &[], &[b], 3);
    assert_eq!(g.get_node_order(), Ok(vec![2, 3, 1, 0]));
}

#[test]
fn passes_without_dependencies_keep_declaration_order() {
    let mut g: RenderGraph<u32> = RenderGraph::new();
    let a = g.add_texture(tex(1));
    let b = g.add_texture(tex(2));
    let c = g.add_buffer(buf(3));
    pass(&mut g, "writes a", &[], &[a], 0);
    pass(&mut g, "reads c", &[c], &[], 1);
    pass(&mut g, "writes a and b", &[], &[a, b], 2);
    g.add_transfer("upload").write(c, 0, vec![7]).finish();
    assert_eq!(g.get_node_order(), Ok(vec![0, 1, 2, 3]));
}

#[test]
fn in_place_update_waits_for_other_writers() {
    let mut g: RenderGraph<u32> = RenderGraph::new();
    let a = g.add_texture(tex(1));
    g.add_pass("in place", NodeType::ComputePass).read_write(a).execute(0);
    pass(&mut g, "later writer", &[], &[a], 1);
    pass(&mut g, "reader", &[a], &[], 2);
    assert_eq!(g.get_node_order(), Ok(vec![1, 0, 2]));
}

#[test]
fn longer_cycle_has_no_order() {
    let mut g: RenderGraph<u32> = RenderGraph::new();
    let a = g.add_buffer(buf(1));
    let b = g.add_buffer(buf(2));
    let c = g.add_buffer(buf(3));
    let d = g.add_buffer(buf(4));
    pass(&mut g, "free", &[], &[d], 0);
    pass(&mut g, "a to b", &[a], &[b], 1);
    pass(&mut g, "b to c", &[b], &[c], 2);
    pass(&mut g, "c to a", &[c], &[a], 3);
    pass(&mut g, "reads d", &[d], &[], 4);
    assert_eq!(g.get_node_order(), Err(()));
}

#[test]
fn handle_counts_grow_with_each_registration() {
    let mut g: RenderGraph<u32> = RenderGraph::new();
    assert_eq!((g.num_textures(), g.num_buffers()), (0, 0));
    g.add_texture(tex(1));
    g.add_texture(tex(1));
    g.add_buffer(buf(1));
    assert_eq!((g.num_textures(), g.num_buffers()), (2, 1));
}

#[test]
fn cycle_has_no_order() {
    let mut g: RenderGraph<u32> = RenderGraph::new();
    let a = g.add_texture(tex(1));
    let b = g.add_texture(tex(2));
    pass(&mut g, "a to b", &[a], &[b], 0);
    pass(&mut g, "b to a", &[b], &[a], 1);
    assert_eq!(g.get_node_order(), Err(()));
    assert!(g.compile().is_none());
}

#[test]
fn read_write_in_place_is_no_cycle() {
    let mut g: RenderGraph<u32> = RenderGraph::new();
    let a = g.add_buffer(buf(4));
    g.add_pass("P", NodeType::ComputePass).read_write(a).execute(0);
    assert_eq!(g.get_node_order(), Ok(vec![0]));
    let plan = g.compile().unwrap();
    let la = plan.lifetimes.get(a).unwrap();
    assert_eq!((la.first_use, la.last_use), (0, 0));
}

#[test]
fn bindings_are_handed_out_in_order() {
    let mut g: RenderGraph<u32> = RenderGraph::new();
    let a = g.add_texture(tex(1));
    let b = g.add_texture(tex(2));
    let c = g.add_buffer(buf(3));
    let builder = g.add_pass("p", NodeType::RenderPass).read(a).write(b).read_write(c);
    assert_eq!(builder.next_bind_idx, 3);
    let inputs: Vec<(u32, ResourceHandle)> = builder.inputs.iter().map(|i| (i.binding, i.resource)).collect();
    let outputs: Vec<(u32, ResourceHandle)> = builder.outputs.iter().map(|o| (o.binding, o.resource)).collect();
    assert_eq!(inputs, vec![(0, a), (2, c)]);
    assert_eq!(outputs, vec![(1, b), (2, c)]);
    let depth = g.add_texture(tex(4));
    let builder = g.add_pass("q", NodeType::RenderPass).write_depth(depth).use_pipeline(PipelineHandle::from_ffi(7));
    assert_eq!(builder.next_bind_idx, 0);
    assert_eq!(builder.depth_texture, Some(depth));
    assert_eq!(builder.pipeline.unwrap().as_ffi(), 7);
}

#[test]
fn transfer_collects_operations_and_adds_a_bare_node() {
    let mut g: RenderGraph<u32> = RenderGraph::new();
    let a = g.add_buffer(buf(16));
    let b = g.add_buffer(buf(16));
    let t = g.add_transfer("upload").write(a, 4, vec![1, 2, 3]).copy(a, b, 8, 0, 4);
    assert_eq!(t.upload_op.len(), 1);
    assert_eq!(t.upload_op[0].data, vec![1, 2, 3]);
    assert_eq!(t.upload_op[0].offset, 4);
    assert_eq!(t.copy_op.len(), 1);
    assert_eq!((t.copy_op[0].src, t.copy_op[0].dst, t.copy_op[0].size), (a, b, 8));
    t.finish();
    assert_eq!(g.get_node_order(), Ok(vec![0]));
    let plan = g.compile().unwrap();
    assert!(plan.render_passes.is_empty());
    assert!(plan.lifetimes.get(a).is_none());
    assert_eq!(g.take_execute(0), None);
}

#[test]
fn compile_plans_render_passes_and_lifetimes() {
    let mut g: RenderGraph<u32> = RenderGraph::new();
    let a = g.add_texture(tex(1));
    let b = g.add_texture(tex(2));
    let unused = g.add_buffer(buf(3));
    pass(&mut g, "final", &[b], &[], 10);
    g.add_pass("compute", NodeType::ComputePass).read(a).write(b).execute(11);
    pass(&mut g, "first", &[], &[a], 12);
    let plan = g.compile().unwrap();
    assert_eq!(plan.order, vec![2, 1, 0]);
    assert_eq!(plan.render_passes, vec![2, 0]);
    let la = plan.lifetimes.get(a).unwrap();
    assert_eq!((la.first_use, la.last_use), (0, 1));
    let lb = plan.lifetimes.get(b).unwrap();
    assert_eq!((lb.first_use, lb.last_use), (1, 2));
    assert!(plan.lifetimes.get(unused).is_none());
}

#[test]
fn lifetimes_follow_the_execution_order() {
    let mut g: RenderGraph<u32> = RenderGraph::new();
    let a = g.add_texture(tex(1));
    let b = g.add_buffer(buf(2));
    pass(&mut g, "reads a", &[a], &[b], 0);
    pass(&mut g, "writes a", &[], &[a], 1);
    let plan = g.compile().unwrap();
    assert_eq!(plan.order, vec![1, 0]);
    let la = plan.lifetimes.get(a).unwrap();
    assert_eq!((la.first_use, la.last_use), (0, 1));
    let lb = plan.lifetimes.get(b).unwrap();
    assert_eq!((lb.first_use, lb.last_use), (1, 1));
}

#[test]
fn render_pass_targets_resolve_descriptors() {
    let mut g: RenderGraph<u32> = RenderGraph::new();
    let color = g.add_texture(tex(32));
    let data = g.add_buffer(buf(8));
    let depth = g.add_texture(tex(64));
    g.add_pass("draw", NodeType::RenderPass).write(data).write(color).write_depth(depth).execute(5);
    let targets = g.render_pass_targets(0).unwrap();
    assert_eq!(targets.colors.len(), 1);
    assert_eq!(targets.colors[0].binding, 1);
    assert_eq!(targets.colors[0].desc.size.width, 32);
    assert_eq!(targets.depth.unwrap().size.width, 64);
    assert_eq!(g.take_execute(0), Some(5));
    assert_eq!(g.take_execute(0), None);
}

#[test]
fn render_pass_target_errors() {
    let mut g: RenderGraph<u32> = RenderGraph::new();
    let mut other: RenderGraph<u32> = RenderGraph::new();
    let own = g.add_texture(tex(1));
    other.add_texture(tex(1));
    let foreign = other.add_texture(tex(2));
    let data = g.add_buffer(buf(1));
    g.add_pass("missing color", NodeType::RenderPass).write(foreign).execute(0);
    g.add_pass("buffer depth", NodeType::RenderPass).write(own).write_depth(data).execute(1);
    g.add_pass("missing depth", NodeType::RenderPass).write(own).write_depth(foreign).execute(2);
    assert_eq!(g.render_pass_targets(0).err(), Some(TargetError::MissingTexture));
    assert_eq!(g.render_pass_targets(1).err(), Some(TargetError::DepthNotTexture));
    assert_eq!(g.render_pass_targets(2).err(), Some(TargetError::MissingDepthTexture));
}

#[test]
fn camera_starts_at_origin_looking_down_negative_z() {
    let mut cam = Camera::new();
    cam.rotate();
    let p = cam.pos();
    let d = cam.dir();
    assert_eq!([p.x, p.y, p.z, p.w].map(f32::from_bits), [0.0, 0.0, 0.0, 1.0]);
    assert_eq!([d.x, d.y, d.z, d.w].map(f32::from_bits), [0.0, 0.0, -1.0, 1.0]);
    assert_eq!((ZERO_BITS, ONE_BITS, MINUS_ONE_BITS), (0.0f32.to_bits(), 1.0f32.to_bits(), (-1.0f32).to_bits()));
}
