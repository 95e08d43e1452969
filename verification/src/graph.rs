//! The render graph: a per-frame list of passes over registered resources,
//! with the builders that add passes and the decisions of compilation.
use crate::lifetime::{
    is_lifetime_along, lemma_lifetime_spans_uses, lemma_lifetimes_are_first_and_last_uses, lemma_uses_seq_member,
    lifetime_in, lifetime_state, node_uses, resource_key, resource_lifetimes, slots_distinct, state_lifetime, uses_seq,
    ResourceLifetimes,
};
use crate::slots::slot_index;
use crate::order::{
    declaration_order, dependency_edges, depends_on, has_dependency_cycle, is_execution_order, lemma_cycle_has_no_order,
    lemma_declaration_order_is_ready, lemma_independent_nodes_keep_order, runs_in_ready_order, schedule, writer_tables,
};
use crate::registry::InstanceRegistry;
use crate::types::{
    BufferDesc, BufferHandle, CopyOp, DownloadOp, Node, NodeInput, NodeOutput, NodeType, PipelineHandle,
    ResourceHandle, SlotHandle, TextureDesc, TextureHandle, UploadOp,
};
use vstd::prelude::*;

verus! {

/// The passes among `order` that are render passes, in that order.
pub open spec fn render_pass_nodes<E>(nodes: Seq<Node<E>>, order: Seq<usize>) -> Seq<usize>
    decreases order.len(),
{
    if order.len() == 0 {
        Seq::empty()
    } else if nodes[order.last() as int].kind == NodeType::RenderPass {
        render_pass_nodes(nodes, order.drop_last()).push(order.last())
    } else {
        render_pass_nodes(nodes, order.drop_last())
    }
}

/// A texture a render pass draws into, at a binding slot.
#[derive(Clone, Copy, Debug)]
pub struct ColorTarget {
    pub binding: u32,
    pub desc: TextureDesc,
}

/// What a render pass draws into: its texture outputs, in order, and its
/// depth texture.
pub struct RenderPassTargets {
    pub colors: Vec<ColorTarget>,
    pub depth: Option<TextureDesc>,
}

/// Why the targets of a render pass cannot be set up.
#[derive(Clone, Copy, Debug, PartialEq, Eq, Structural)]
pub enum TargetError {
    /// A texture the pass writes is not registered in the graph.
    MissingTexture,
    /// The depth attachment is a buffer.
    DepthNotTexture,
    /// The depth texture is not registered in the graph.
    MissingDepthTexture,
}

/// Every texture among `outs` is registered in `textures`.
pub open spec fn texture_outputs_registered(textures: Map<u64, TextureDesc>, outs: Seq<NodeOutput>) -> bool {
    forall|k: int|
        0 <= k < outs.len() ==> (#[trigger] outs[k].resource matches ResourceHandle::Texture(h)
            ==> textures.dom().contains(h.key()))
}

/// The color targets for `outs`: each texture output, in order, with its
/// binding and descriptor.
pub open spec fn color_targets(textures: Map<u64, TextureDesc>, outs: Seq<NodeOutput>) -> Seq<ColorTarget>
    decreases outs.len(),
{
    if outs.len() == 0 {
        Seq::empty()
    } else {
        let rest = color_targets(textures, outs.drop_last());
        match outs.last().resource {
            ResourceHandle::Texture(h) => rest.push(ColorTarget { binding: outs.last().binding, desc: textures[h.key()] }),
            ResourceHandle::Buffer(_) => rest,
        }
    }
}

/// The color target that output `o` gives when it writes a texture: the
/// output's own binding, with the descriptor registered for its texture.
pub open spec fn target_of(textures: Map<u64, TextureDesc>, o: NodeOutput) -> ColorTarget {
    ColorTarget { binding: o.binding, desc: textures[resource_key(o.resource)] }
}

/// The color targets of a pass are its texture outputs, kept in the order the
/// pass writes them (buffer outputs left out), each with its own binding and
/// the descriptor of its texture.
pub proof fn lemma_color_targets_follow_outputs(textures: Map<u64, TextureDesc>, outs: Seq<NodeOutput>)
    ensures
        color_targets(textures, outs) == outs.filter(|o: NodeOutput| o.resource is Texture).map_values(
            |o: NodeOutput| target_of(textures, o),
        ),
    decreases outs.len(),
{
    reveal(Seq::filter);
    if outs.len() > 0 {
        lemma_color_targets_follow_outputs(textures, outs.drop_last());
        let f = outs.filter(|o: NodeOutput| o.resource is Texture);
        let g = outs.drop_last().filter(|o: NodeOutput| o.resource is Texture);
        if outs.last().resource is Texture {
            assert(f == g.push(outs.last()));
            assert(f.map_values(|o: NodeOutput| target_of(textures, o)) =~= g.map_values(
                |o: NodeOutput| target_of(textures, o),
            ).push(target_of(textures, outs.last())));
        } else {
            assert(f == g);
        }
    }
}

/// The render passes of a plan are exactly the nodes of the order whose kind
/// is a render pass, in the order they run.
pub proof fn lemma_render_passes_follow_order<E>(nodes: Seq<Node<E>>, order: Seq<usize>)
    ensures
        render_pass_nodes(nodes, order) == order.filter(|i: usize| nodes[i as int].kind == NodeType::RenderPass),
    decreases order.len(),
{
    reveal(Seq::filter);
    if order.len() > 0 {
        lemma_render_passes_follow_order(nodes, order.drop_last());
    }
}

/// What compilation decides: an execution order, the lifetimes of the
/// resources along it, and the render passes to record, in that order.
pub struct CompilePlan {
    pub order: Vec<usize>,
    pub lifetimes: ResourceLifetimes,
    pub render_passes: Vec<usize>,
}

/// A per-frame graph of passes. `E` is the type of the work a pass runs.
pub struct RenderGraph<E> {
    nodes: Vec<Node<E>>,
    textures: InstanceRegistry<TextureHandle, TextureDesc>,
    buffers: InstanceRegistry<BufferHandle, BufferDesc>,
}

impl<E> RenderGraph<E> {
    /// The graph's internal consistency, which every graph keeps.
    #[verifier::type_invariant]
    pub closed spec fn wf(&self) -> bool {
        self.textures.wf() && self.buffers.wf()
    }

    /// The passes, in the order they were added.
    pub closed spec fn nodes(&self) -> Seq<Node<E>> {
        self.nodes@
    }

    /// The registered textures: for each texture handle's key, its descriptor.
    pub closed spec fn textures(&self) -> Map<u64, TextureDesc> {
        self.textures@
    }

    /// The registered buffers: for each buffer handle's key, its descriptor.
    pub closed spec fn buffers(&self) -> Map<u64, BufferDesc> {
        self.buffers@
    }

    /// The distinct texture descriptors, in order of first registration.
    pub closed spec fn texture_descs(&self) -> Seq<TextureDesc> {
        self.textures.unique_values()
    }

    /// The distinct buffer descriptors, in order of first registration.
    pub closed spec fn buffer_descs(&self) -> Seq<BufferDesc> {
        self.buffers.unique_values()
    }

    /// How many texture handles the graph has handed out.
    pub closed spec fn texture_count(&self) -> nat {
        self.textures.len()
    }

    /// How many buffer handles the graph has handed out.
    pub closed spec fn buffer_count(&self) -> nat {
        self.buffers.len()
    }

    /// Both graphs have the same registered resources (and are consistent
    /// alike).
    pub open spec fn same_resources(&self, other: Self) -> bool {
        &&& self.wf() == other.wf()
        &&& self.textures() == other.textures()
        &&& self.buffers() == other.buffers()
        &&& self.texture_descs() == other.texture_descs()
        &&& self.buffer_descs() == other.buffer_descs()
        &&& self.texture_count() == other.texture_count()
        &&& self.buffer_count() == other.buffer_count()
    }

    /// The graph registered `r`.
    pub open spec fn is_registered(&self, r: ResourceHandle) -> bool {
        match r {
            ResourceHandle::Texture(h) => self.textures().dom().contains(h.key()),
            ResourceHandle::Buffer(h) => self.buffers().dom().contains(h.key()),
        }
    }

    /// Every resource a pass reads or writes was registered in this graph.
    pub open spec fn uses_registered(&self) -> bool {
        forall|i: int, r: ResourceHandle|
            0 <= i < self.nodes().len() && #[trigger] node_uses(self.nodes()[i]).contains(r) ==> self.is_registered(r)
    }

    /// Distinct handles the graph registered name distinct slots.
    pub proof fn lemma_distinct_slots(&self)
        requires
            self.wf(),
        ensures
            forall|k: u64, j: u64|
                #[trigger] self.textures().dom().contains(k) && #[trigger] self.textures().dom().contains(j) && k
                    != j ==> slot_index(k) != slot_index(j),
            forall|k: u64, j: u64|
                #[trigger] self.buffers().dom().contains(k) && #[trigger] self.buffers().dom().contains(j) && k
                    != j ==> slot_index(k) != slot_index(j),
    {
        self.textures.lemma_distinct_slots();
        self.buffers.lemma_distinct_slots();
    }

    /// An empty graph.
    pub fn new() -> (g: Self)
        ensures
            g.wf(),
            g.nodes() == Seq::<Node<E>>::empty(),
            g.textures() == Map::<u64, TextureDesc>::empty(),
            g.buffers() == Map::<u64, BufferDesc>::empty(),
            g.texture_descs() == Seq::<TextureDesc>::empty(),
            g.buffer_descs() == Seq::<BufferDesc>::empty(),
            g.texture_count() == 0,
            g.buffer_count() == 0,
    {
        RenderGraph { nodes: Vec::new(), textures: InstanceRegistry::new(), buffers: InstanceRegistry::new() }
    }

    /// Registers a texture and returns a fresh handle to it. Equal descriptors
    /// are stored once and shared by their handles.
    pub fn add_texture(&mut self, desc: TextureDesc) -> (r: ResourceHandle)
        requires
            old(self).texture_count() + 2 <= u32::MAX,
        ensures
            r matches ResourceHandle::Texture(h) && !old(self).textures().dom().contains(h.key())
                && final(self).textures() == old(self).textures().insert(h.key(), desc),
            final(self).texture_count() == old(self).texture_count() + 1,
            final(self).texture_descs() == (if old(self).texture_descs().contains(desc) {
                old(self).texture_descs()
            } else {
                old(self).texture_descs().push(desc)
            }),
            final(self).nodes() == old(self).nodes(),
            final(self).buffers() == old(self).buffers(),
            final(self).buffer_descs() == old(self).buffer_descs(),
            final(self).buffer_count() == old(self).buffer_count(),
    {
        proof {
            use_type_invariant(&*self);
        }
        let mut textures = InstanceRegistry::new();
        std::mem::swap(&mut textures, &mut self.textures);
        let h = textures.insert(desc);
        self.textures = textures;
        ResourceHandle::Texture(h)
    }

    /// Registers a buffer and returns a fresh handle to it. Equal descriptors
    /// are stored once and shared by their handles.
    pub fn add_buffer(&mut self, desc: BufferDesc) -> (r: ResourceHandle)
        requires
            old(self).buffer_count() + 2 <= u32::MAX,
        ensures
            r matches ResourceHandle::Buffer(h) && !old(self).buffers().dom().contains(h.key())
                && final(self).buffers() == old(self).buffers().insert(h.key(), desc),
            final(self).buffer_count() == old(self).buffer_count() + 1,
            final(self).buffer_descs() == (if old(self).buffer_descs().contains(desc) {
                old(self).buffer_descs()
            } else {
                old(self).buffer_descs().push(desc)
            }),
            final(self).nodes() == old(self).nodes(),
            final(self).textures() == old(self).textures(),
            final(self).texture_descs() == old(self).texture_descs(),
            final(self).texture_count() == old(self).texture_count(),
    {
        proof {
            use_type_invariant(&*self);
        }
        let mut buffers = InstanceRegistry::new();
        std::mem::swap(&mut buffers, &mut self.buffers);
        let h = buffers.insert(desc);
        self.buffers = buffers;
        ResourceHandle::Buffer(h)
    }

    /// How many texture handles the graph has handed out.
    pub fn num_textures(&self) -> (n: usize)
        ensures
            n == self.texture_count(),
    {
        self.textures.handle_count()
    }

    /// How many buffer handles the graph has handed out.
    pub fn num_buffers(&self) -> (n: usize)
        ensures
            n == self.buffer_count(),
    {
        self.buffers.handle_count()
    }

    /// The descriptor of a texture, if this graph registered the handle.
    pub fn texture_desc(&self, handle: TextureHandle) -> (r: Option<&TextureDesc>)
        ensures
            match r {
                Some(d) => self.textures().dom().contains(handle.key()) && *d == self.textures()[handle.key()],
                None => !self.textures().dom().contains(handle.key()),
            },
    {
        proof {
            use_type_invariant(self);
        }
        self.textures.get(handle)
    }

    /// The descriptor of a buffer, if this graph registered the handle.
    pub fn buffer_desc(&self, handle: BufferHandle) -> (r: Option<&BufferDesc>)
        ensures
            match r {
                Some(d) => self.buffers().dom().contains(handle.key()) && *d == self.buffers()[handle.key()],
                None => !self.buffers().dom().contains(handle.key()),
            },
    {
        proof {
            use_type_invariant(self);
        }
        self.buffers.get(handle)
    }

    /// Starts a transfer node named `name`.
    pub fn add_transfer(&mut self, name: &str) -> (b: TransferBuilder<'_, E>)
        ensures
            *b.graph == *old(self),
            *final(self) == *final(b.graph),
            b.name@ == name@,
            b.kind == NodeType::Transfer,
            b.upload_op@ == Seq::<UploadOp>::empty(),
            b.download_op@ == Seq::<DownloadOp>::empty(),
            b.copy_op@ == Seq::<CopyOp>::empty(),
    {
        TransferBuilder {
            graph: self,
            name: name.to_owned(),
            kind: NodeType::Transfer,
            upload_op: Vec::new(),
            download_op: Vec::new(),
            copy_op: Vec::new(),
        }
    }

    /// Starts a pass named `name` of the given kind.
    pub fn add_pass(&mut self, name: &str, kind: NodeType) -> (b: PassBuilder<'_, E>)
        ensures
            *b.graph == *old(self),
            *final(self) == *final(b.graph),
            b.name@ == name@,
            b.kind == kind,
            b.inputs@ == Seq::<NodeInput>::empty(),
            b.outputs@ == Seq::<NodeOutput>::empty(),
            b.depth_texture is None,
            b.next_bind_idx == 0,
            b.pipeline is None,
            b.bindings_ordered(),
    {
        PassBuilder::new(self, name, kind)
    }

    /// An order in which to run the passes such that every pass runs after
    /// each other pass that writes something it reads, or `Err` when no such
    /// order exists, which is exactly when the dependencies run in a cycle (a
    /// pass that updates a resource in place, reading what it writes, depends
    /// on no one for it). Passes run first in, first out as
    /// they become ready; that pins the order down (see
    /// `lemma_ready_order_unique`), and with no dependencies at all it is the
    /// order the passes were added in.
    pub fn get_node_order(&self) -> (res: Result<Vec<usize>, ()>)
        ensures
            match res {
                Ok(order) => {
                    &&& is_execution_order(self.nodes(), order@)
                    &&& runs_in_ready_order(self.nodes(), order@)
                    &&& !has_dependency_cycle(self.nodes())
                },
                Err(()) => has_dependency_cycle(self.nodes()) && forall|o: Seq<usize>| !is_execution_order(self.nodes(), o),
            },
            (forall|v: int, w: int| !#[trigger] depends_on(self.nodes(), v, w)) ==> (res matches Ok(order) && order@
                == declaration_order(self.nodes().len())),
    {
        let (texture_writers, buffer_writers) = writer_tables(&self.nodes);
        let (edges, dependency_count) = dependency_edges(&self.nodes, &texture_writers, &buffer_writers);
        let res = schedule(&self.nodes, &edges, dependency_count);
        proof {
            self.lemma_node_count_fits();
            if res is Ok {
                let order = res->Ok_0;
                assert forall|c: Seq<int>| !crate::order::is_dependency_cycle(self.nodes(), c) by {
                    if crate::order::is_dependency_cycle(self.nodes(), c) {
                        lemma_cycle_has_no_order(self.nodes(), c, order@);
                    }
                }
            }
            if forall|v: int, w: int| !#[trigger] depends_on(self.nodes(), v, w) {
                lemma_declaration_order_is_ready(self.nodes());
                if res is Ok {
                    lemma_independent_nodes_keep_order(self.nodes(), res->Ok_0@);
                }
            }
        }
        res
    }

    /// The graph holds no more passes than a `usize` can count.
    pub proof fn lemma_node_count_fits(&self)
        ensures
            self.nodes().len() <= usize::MAX,
    {
        assert(self.nodes.len() == self.nodes@.len());
    }

    /// Plans the execution of the graph: `None` when its passes have no
    /// execution order; else the order that [`Self::get_node_order`] gives,
    /// the resource lifetimes along it, and the render passes in it. In a
    /// graph whose passes use only resources it registered, the lifetime of
    /// each resource runs from the first to the last position in the order at
    /// which a pass uses it (positions are counted in a `u32`).
    pub fn compile(&self) -> (plan: Option<CompilePlan>)
        ensures
            match plan {
                None => has_dependency_cycle(self.nodes()) && forall|o: Seq<usize>| !is_execution_order(self.nodes(), o),
                Some(p) => {
                    &&& is_execution_order(self.nodes(), p.order@)
                    &&& runs_in_ready_order(self.nodes(), p.order@)
                    &&& p.lifetimes.state() == lifetime_state(self.nodes(), p.order@)
                    &&& p.render_passes@ == render_pass_nodes(self.nodes(), p.order@)
                    &&& p.render_passes@ == p.order@.filter(
                        |i: usize| self.nodes()[i as int].kind == NodeType::RenderPass,
                    )
                    &&& (self.uses_registered() && self.nodes().len() <= u32::MAX + 1) ==> forall|
                        r: ResourceHandle,
                    | is_lifetime_along(self.nodes(), p.order@, r, #[trigger] state_lifetime(p.lifetimes.state(), r))
                },
            },
    {
        let order = match self.get_node_order() {
            Ok(order) => order,
            Err(()) => return None,
        };
        let lifetimes = resource_lifetimes(&self.nodes, &order);
        let mut render_passes: Vec<usize> = Vec::new();
        let mut p: usize = 0;
        while p < order.len()
            invariant
                is_execution_order(self.nodes(), order@),
                runs_in_ready_order(self.nodes(), order@),
                p <= order@.len(),
                render_passes@ == render_pass_nodes(self.nodes(), order@.subrange(0, p as int)),
            decreases order.len() - p,
        {
            let idx = order[p];
            proof {
                assert(order@.subrange(0, p + 1).drop_last() =~= order@.subrange(0, p as int));
            }
            match self.nodes[idx].kind {
                NodeType::RenderPass => render_passes.push(idx),
                NodeType::ComputePass => {},
                NodeType::Transfer => {},
            }
            p = p + 1;
        }
        assert(order@.subrange(0, order@.len() as int) =~= order@);
        proof {
            lemma_render_passes_follow_order(self.nodes(), order@);
            use_type_invariant(self);
            if self.uses_registered() && self.nodes().len() <= u32::MAX + 1 {
                assert forall|r: ResourceHandle|
                    is_lifetime_along(self.nodes(), order@, r, #[trigger] state_lifetime(lifetimes.state(), r)) by {
                    lemma_registered_lifetimes(self, order@, r);
                    lemma_lifetime_spans_uses(self.nodes(), order@, r);
                }
            }
        }
        Some(CompilePlan { order, lifetimes, render_passes })
    }

    /// The targets a render pass draws into: the descriptor of each texture it
    /// writes, with its binding, and that of its depth texture.
    pub fn render_pass_targets(&self, node_idx: usize) -> (res: Result<RenderPassTargets, TargetError>)
        requires
            node_idx < self.nodes().len(),
        ensures
            ({
                let node = self.nodes()[node_idx as int];
                if !texture_outputs_registered(self.textures(), node.outputs@) {
                    res == Err::<RenderPassTargets, TargetError>(TargetError::MissingTexture)
                } else {
                    match node.depth_texture {
                        Some(ResourceHandle::Buffer(_)) => res == Err::<RenderPassTargets, TargetError>(
                            TargetError::DepthNotTexture,
                        ),
                        Some(ResourceHandle::Texture(h)) => if self.textures().dom().contains(h.key()) {
                            res matches Ok(t) && t.colors@ == color_targets(self.textures(), node.outputs@)
                                && t.depth == Some(self.textures()[h.key()])
                        } else {
                            res == Err::<RenderPassTargets, TargetError>(TargetError::MissingDepthTexture)
                        },
                        None => res matches Ok(t) && t.colors@ == color_targets(self.textures(), node.outputs@)
                            && t.depth is None,
                    }
                }
            }),
            res matches Ok(t) ==> t.colors@ == self.nodes()[node_idx as int].outputs@.filter(
                |o: NodeOutput| o.resource is Texture,
            ).map_values(|o: NodeOutput| target_of(self.textures(), o)),
    {
        proof {
            use_type_invariant(self);
            lemma_color_targets_follow_outputs(self.textures(), self.nodes()[node_idx as int].outputs@);
        }
        let node = &self.nodes[node_idx];
        let mut colors: Vec<ColorTarget> = Vec::new();
        let mut k: usize = 0;
        while k < node.outputs.len()
            invariant
                self.wf(),
                node == &self.nodes()[node_idx as int],
                k <= node.outputs@.len(),
                texture_outputs_registered(self.textures(), node.outputs@.subrange(0, k as int)),
                colors@ == color_targets(self.textures(), node.outputs@.subrange(0, k as int)),
            decreases node.outputs.len() - k,
        {
            let output = node.outputs[k];
            proof {
                assert(node.outputs@.subrange(0, k + 1).drop_last() =~= node.outputs@.subrange(0, k as int));
                assert(node.outputs@.subrange(0, k + 1).last() == output);
            }
            match output.resource {
                ResourceHandle::Texture(handle) => {
                    match self.textures.get(handle) {
                        Some(desc) => {
                            colors.push(ColorTarget { binding: output.binding, desc: *desc });
                        },
                        None => {
                            proof {
                                assert(node.outputs@[k as int] == output);
                            }
                            return Err(TargetError::MissingTexture);
                        },
                    }
                },
                ResourceHandle::Buffer(_) => {},
            }
            proof {
                assert forall|j: int| 0 <= j < k + 1 implies (#[trigger] node.outputs@.subrange(0, k + 1)[j].resource
                    matches ResourceHandle::Texture(h) ==> self.textures().dom().contains(h.key())) by {
                    if j < k {
                        assert(node.outputs@.subrange(0, k + 1)[j] == node.outputs@.subrange(0, k as int)[j]);
                    }
                }
            }
            k = k + 1;
        }
        assert(node.outputs@.subrange(0, node.outputs@.len() as int) =~= node.outputs@);
        let depth = match node.depth_texture {
            None => None,
            Some(ResourceHandle::Buffer(_)) => return Err(TargetError::DepthNotTexture),
            Some(ResourceHandle::Texture(handle)) => match self.textures.get(handle) {
                Some(desc) => Some(*desc),
                None => return Err(TargetError::MissingDepthTexture),
            },
        };
        Ok(RenderPassTargets { colors, depth })
    }

    /// Node `node_idx`.
    pub fn node(&self, node_idx: usize) -> (n: &Node<E>)
        requires
            node_idx < self.nodes().len(),
        ensures
            *n == self.nodes()[node_idx as int],
    {
        &self.nodes[node_idx]
    }

    /// Takes the work of node `node_idx` out of the graph, to run it.
    pub fn take_execute(&mut self, node_idx: usize) -> (work: Option<E>)
        requires
            node_idx < old(self).nodes().len(),
        ensures
            work == old(self).nodes()[node_idx as int].execute,
            final(self).nodes().len() == old(self).nodes().len(),
            final(self).nodes()[node_idx as int].execute is None,
            final(self).nodes()[node_idx as int].name == old(self).nodes()[node_idx as int].name,
            final(self).nodes()[node_idx as int].kind == old(self).nodes()[node_idx as int].kind,
            final(self).nodes()[node_idx as int].inputs == old(self).nodes()[node_idx as int].inputs,
            final(self).nodes()[node_idx as int].outputs == old(self).nodes()[node_idx as int].outputs,
            final(self).nodes()[node_idx as int].depth_texture == old(self).nodes()[node_idx as int].depth_texture,
            final(self).nodes()[node_idx as int].pipeline == old(self).nodes()[node_idx as int].pipeline,
            forall|i: int| 0 <= i < old(self).nodes().len() && i != node_idx ==> #[trigger] final(self).nodes()[i]
                == old(self).nodes()[i],
            final(self).same_resources(*old(self)),
    {
        proof {
            use_type_invariant(&*self);
        }
        let mut nodes = Vec::new();
        std::mem::swap(&mut nodes, &mut self.nodes);
        let work = nodes[node_idx].execute.take();
        self.nodes = nodes;
        work
    }
}

/// Builds a transfer node. Its operations are collected but not kept by the
/// node that `finish` adds.
pub struct TransferBuilder<'a, E> {
    pub graph: &'a mut RenderGraph<E>,
    pub name: String,
    pub kind: NodeType,
    pub upload_op: Vec<UploadOp>,
    pub download_op: Vec<DownloadOp>,
    pub copy_op: Vec<CopyOp>,
}

impl<'a, E> TransferBuilder<'a, E> {
    /// Adds an upload of `data` (already cast to bytes) into `dest` at `offset`.
    pub fn write(self, dest: ResourceHandle, offset: u64, data: Vec<u8>) -> (b: Self)
        ensures
            *b.graph == *old(self.graph),
            *final(self.graph) == *final(b.graph),
            b.name == self.name,
            b.kind == self.kind,
            b.upload_op@ == self.upload_op@.push(UploadOp { target: dest, offset: offset, data: data }),
            b.download_op == self.download_op,
            b.copy_op == self.copy_op,
    {
        let mut b = self;
        b.upload_op.push(UploadOp { target: dest, offset: offset, data: data });
        b
    }

    /// Adds a copy of `size` bytes from `src` at `src_offset` to `dst` at
    /// `dst_offset`.
    pub fn copy(self, src: ResourceHandle, dst: ResourceHandle, size: u64, src_offset: u64, dst_offset: u64) -> (b: Self)
        ensures
            *b.graph == *old(self.graph),
            *final(self.graph) == *final(b.graph),
            b.name == self.name,
            b.kind == self.kind,
            b.upload_op == self.upload_op,
            b.download_op == self.download_op,
            b.copy_op@ == self.copy_op@.push(CopyOp { src, dst, size, src_offset, dst_offset }),
    {
        let mut b = self;
        b.copy_op.push(CopyOp { src, dst, size, src_offset, dst_offset });
        b
    }

    /// Adds the transfer node: it has this builder's name and kind, no
    /// inputs, outputs, depth texture, pipeline or work.
    pub fn finish(self)
        ensures
            final(self.graph).nodes().len() == old(self.graph).nodes().len() + 1,
            final(self.graph).nodes().drop_last() == old(self.graph).nodes(),
            final(self.graph).nodes().last().name == self.name,
            final(self.graph).nodes().last().kind == self.kind,
            final(self.graph).nodes().last().inputs@ == Seq::<NodeInput>::empty(),
            final(self.graph).nodes().last().outputs@ == Seq::<NodeOutput>::empty(),
            final(self.graph).nodes().last().depth_texture is None,
            final(self.graph).nodes().last().pipeline is None,
            final(self.graph).nodes().last().execute is None,
            final(self.graph).same_resources(*old(self.graph)),
    {
        let transfer = Node {
            name: self.name,
            kind: self.kind,
            inputs: Vec::new(),
            outputs: Vec::new(),
            depth_texture: None,
            pipeline: None,
            execute: None,
        };
        proof {
            use_type_invariant(&*self.graph);
        }
        let mut nodes = Vec::new();
        std::mem::swap(&mut nodes, &mut self.graph.nodes);
        nodes.push(transfer);
        self.graph.nodes = nodes;
    }
}

/// Binding slot `b` was given to one of `ins` or one of `outs`.
pub open spec fn binding_given(ins: Seq<NodeInput>, outs: Seq<NodeOutput>, b: u32) -> bool {
    ||| exists|a: int| 0 <= a < ins.len() && #[trigger] ins[a].binding == b
    ||| exists|a: int| 0 <= a < outs.len() && #[trigger] outs[a].binding == b
}

/// The slots given to `ins` and `outs` are exactly those below `next`, and
/// those of `ins` (and of `outs`) increase in order.
pub open spec fn bindings_in_order(ins: Seq<NodeInput>, outs: Seq<NodeOutput>, next: u32) -> bool {
    &&& forall|b: u32| b < next ==> #[trigger] binding_given(ins, outs, b)
    &&& forall|a: int| 0 <= a < ins.len() ==> #[trigger] ins[a].binding < next
    &&& forall|a: int| 0 <= a < outs.len() ==> #[trigger] outs[a].binding < next
    &&& forall|a: int, b: int| 0 <= a < b < ins.len() ==> #[trigger] ins[a].binding < #[trigger] ins[b].binding
    &&& forall|a: int, b: int| 0 <= a < b < outs.len() ==> #[trigger] outs[a].binding < #[trigger] outs[b].binding
}

/// Giving slot `next` to a new input, a new output or both keeps the slots in
/// order, with `next + 1` next.
proof fn lemma_give_next_binding(
    ins: Seq<NodeInput>,
    outs: Seq<NodeOutput>,
    next: u32,
    resource: ResourceHandle,
    to_input: bool,
    to_output: bool,
)
    requires
        bindings_in_order(ins, outs, next),
        next < u32::MAX,
        to_input || to_output,
    ensures
        bindings_in_order(
            if to_input {
                ins.push(NodeInput { binding: next, resource })
            } else {
                ins
            },
            if to_output {
                outs.push(NodeOutput { binding: next, resource })
            } else {
                outs
            },
            (next + 1) as u32,
        ),
{
    let ins2 = if to_input {
        ins.push(NodeInput { binding: next, resource })
    } else {
        ins
    };
    let outs2 = if to_output {
        outs.push(NodeOutput { binding: next, resource })
    } else {
        outs
    };
    assert forall|b: u32| b < next + 1 implies #[trigger] binding_given(ins2, outs2, b) by {
        if b < next {
            assert(binding_given(ins, outs, b));
            if exists|a: int| 0 <= a < ins.len() && #[trigger] ins[a].binding == b {
                let a = choose|a: int| 0 <= a < ins.len() && #[trigger] ins[a].binding == b;
                assert(ins2[a] == ins[a]);
            } else {
                let a = choose|a: int| 0 <= a < outs.len() && #[trigger] outs[a].binding == b;
                assert(outs2[a] == outs[a]);
            }
        } else if to_input {
            assert(ins2[ins.len() as int].binding == b);
        } else {
            assert(outs2[outs.len() as int].binding == b);
        }
    }
    assert forall|a: int| 0 <= a < ins2.len() implies #[trigger] ins2[a].binding < next + 1 by {
        if a < ins.len() {
            assert(ins2[a] == ins[a]);
        }
    }
    assert forall|a: int| 0 <= a < outs2.len() implies #[trigger] outs2[a].binding < next + 1 by {
        if a < outs.len() {
            assert(outs2[a] == outs[a]);
        }
    }
    assert forall|a: int, b: int| 0 <= a < b < ins2.len() implies #[trigger] ins2[a].binding < #[trigger] ins2[b].binding by {
        assert(ins2[a] == ins[a]);
        if b < ins.len() {
            assert(ins2[b] == ins[b]);
        }
    }
    assert forall|a: int, b: int| 0 <= a < b < outs2.len() implies #[trigger] outs2[a].binding < #[trigger] outs2[b].binding by {
        assert(outs2[a] == outs[a]);
        if b < outs.len() {
            assert(outs2[b] == outs[b]);
        }
    }
}

/// Builds a pass: what it reads and writes, each with the next binding slot.
pub struct PassBuilder<'a, E> {
    pub graph: &'a mut RenderGraph<E>,
    pub name: String,
    pub kind: NodeType,
    pub inputs: Vec<NodeInput>,
    pub outputs: Vec<NodeOutput>,
    pub depth_texture: Option<ResourceHandle>,
    pub next_bind_idx: u32,
    pub pipeline: Option<PipelineHandle>,
}

impl<'a, E> PassBuilder<'a, E> {
    /// The bindings given out so far are exactly those below the next one,
    /// and the bindings of the inputs (and of the outputs) increase in order:
    /// slots 0, 1, 2, ... go out in call order.
    pub open spec fn bindings_ordered(&self) -> bool {
        bindings_in_order(self.inputs@, self.outputs@, self.next_bind_idx)
    }

    /// Starts a pass on `graph` with no resources and binding slot 0 next.
    pub fn new(graph: &'a mut RenderGraph<E>, name: &str, kind: NodeType) -> (b: Self)
        ensures
            *b.graph == *old(graph),
            *final(graph) == *final(b.graph),
            b.name@ == name@,
            b.kind == kind,
            b.inputs@ == Seq::<NodeInput>::empty(),
            b.outputs@ == Seq::<NodeOutput>::empty(),
            b.depth_texture is None,
            b.next_bind_idx == 0,
            b.pipeline is None,
            b.bindings_ordered(),
    {
        PassBuilder {
            graph: graph,
            name: name.to_owned(),
            kind: kind,
            inputs: Vec::new(),
            outputs: Vec::new(),
            depth_texture: None,
            next_bind_idx: 0,
            pipeline: None,
        }
    }

    /// Reads `resource` at the next binding slot.
    pub fn read(self, resource: ResourceHandle) -> (b: Self)
        requires
            self.next_bind_idx < u32::MAX,
        ensures
            *b.graph == *old(self.graph),
            *final(self.graph) == *final(b.graph),
            b.name == self.name,
            b.kind == self.kind,
            b.inputs@ == self.inputs@.push(NodeInput { binding: self.next_bind_idx, resource }),
            b.outputs == self.outputs,
            b.depth_texture == self.depth_texture,
            b.next_bind_idx == self.next_bind_idx + 1,
            b.pipeline == self.pipeline,
            self.bindings_ordered() ==> b.bindings_ordered(),
    {
        proof {
            if self.bindings_ordered() {
                lemma_give_next_binding(self.inputs@, self.outputs@, self.next_bind_idx, resource, true, false);
            }
        }
        let mut b = self;
        let binding = b.get_next_bind_idx();
        b.inputs.push(NodeInput { binding, resource });
        b
    }

    /// Writes `resource` at the next binding slot.
    pub fn write(self, resource: ResourceHandle) -> (b: Self)
        requires
            self.next_bind_idx < u32::MAX,
        ensures
            *b.graph == *old(self.graph),
            *final(self.graph) == *final(b.graph),
            b.name == self.name,
            b.kind == self.kind,
            b.inputs == self.inputs,
            b.outputs@ == self.outputs@.push(NodeOutput { binding: self.next_bind_idx, resource }),
            b.depth_texture == self.depth_texture,
            b.next_bind_idx == self.next_bind_idx + 1,
            b.pipeline == self.pipeline,
            self.bindings_ordered() ==> b.bindings_ordered(),
    {
        proof {
            if self.bindings_ordered() {
                lemma_give_next_binding(self.inputs@, self.outputs@, self.next_bind_idx, resource, false, true);
            }
        }
        let mut b = self;
        let binding = b.get_next_bind_idx();
        b.outputs.push(NodeOutput { binding, resource });
        b
    }

    /// Reads and writes `resource`, both at the next binding slot.
    pub fn read_write(self, resource: ResourceHandle) -> (b: Self)
        requires
            self.next_bind_idx < u32::MAX,
        ensures
            *b.graph == *old(self.graph),
            *final(self.graph) == *final(b.graph),
            b.name == self.name,
            b.kind == self.kind,
            b.inputs@ == self.inputs@.push(NodeInput { binding: self.next_bind_idx, resource }),
            b.outputs@ == self.outputs@.push(NodeOutput { binding: self.next_bind_idx, resource }),
            b.depth_texture == self.depth_texture,
            b.next_bind_idx == self.next_bind_idx + 1,
            b.pipeline == self.pipeline,
            self.bindings_ordered() ==> b.bindings_ordered(),
    {
        proof {
            if self.bindings_ordered() {
                lemma_give_next_binding(self.inputs@, self.outputs@, self.next_bind_idx, resource, true, true);
            }
        }
        let mut b = self;
        let binding = b.get_next_bind_idx();
        b.inputs.push(NodeInput { binding, resource });
        b.outputs.push(NodeOutput { binding, resource });
        b
    }

    /// Sets the depth attachment.
    pub fn write_depth(self, resource: ResourceHandle) -> (b: Self)
        ensures
            *b.graph == *old(self.graph),
            *final(self.graph) == *final(b.graph),
            b.name == self.name,
            b.kind == self.kind,
            b.inputs == self.inputs,
            b.outputs == self.outputs,
            b.depth_texture == Some(resource),
            b.next_bind_idx == self.next_bind_idx,
            b.pipeline == self.pipeline,
            self.bindings_ordered() ==> b.bindings_ordered(),
    {
        let mut b = self;
        b.depth_texture = Some(resource);
        b
    }

    /// Sets the pipeline.
    pub fn use_pipeline(self, pipeline: PipelineHandle) -> (b: Self)
        ensures
            *b.graph == *old(self.graph),
            *final(self.graph) == *final(b.graph),
            b.name == self.name,
            b.kind == self.kind,
            b.inputs == self.inputs,
            b.outputs == self.outputs,
            b.depth_texture == self.depth_texture,
            b.next_bind_idx == self.next_bind_idx,
            b.pipeline == Some(pipeline),
            self.bindings_ordered() ==> b.bindings_ordered(),
    {
        let mut b = self;
        b.pipeline = Some(pipeline);
        b
    }

    /// Adds the pass to the graph, with `func` as its work.
    pub fn execute(self, func: E)
        ensures
            final(self.graph).nodes() == old(self.graph).nodes().push(
                Node {
                    name: self.name,
                    kind: self.kind,
                    inputs: self.inputs,
                    outputs: self.outputs,
                    depth_texture: self.depth_texture,
                    pipeline: self.pipeline,
                    execute: Some(func),
                },
            ),
            final(self.graph).same_resources(*old(self.graph)),
    {
        let pass = Node {
            name: self.name,
            kind: self.kind,
            inputs: self.inputs,
            outputs: self.outputs,
            depth_texture: self.depth_texture,
            pipeline: self.pipeline,
            execute: Some(func),
        };
        proof {
            use_type_invariant(&*self.graph);
        }
        let mut nodes = Vec::new();
        std::mem::swap(&mut nodes, &mut self.graph.nodes);
        nodes.push(pass);
        self.graph.nodes = nodes;
    }

    /// Hands out the next binding slot.
    fn get_next_bind_idx(&mut self) -> (binding: u32)
        requires
            old(self).next_bind_idx < u32::MAX,
        ensures
            binding == old(self).next_bind_idx,
            final(self).next_bind_idx == old(self).next_bind_idx + 1,
            *final(self).graph == *old(self).graph,
            *final(old(self).graph) == *final(final(self).graph),
            final(self).name == old(self).name,
            final(self).kind == old(self).kind,
            final(self).inputs == old(self).inputs,
            final(self).outputs == old(self).outputs,
            final(self).depth_texture == old(self).depth_texture,
            final(self).pipeline == old(self).pipeline,
    {
        let binding = self.next_bind_idx;
        self.next_bind_idx = self.next_bind_idx + 1;
        binding
    }
}

/// In a graph whose passes use only resources it registered, lifetime
/// analysis along an order of its nodes gives each resource the span from the
/// position of its first use to the position of its last use (and nothing to
/// a resource no pass uses).
pub proof fn lemma_registered_lifetimes<E>(g: &RenderGraph<E>, order: Seq<usize>, r: ResourceHandle)
    requires
        g.wf(),
        g.uses_registered(),
        forall|p: int| 0 <= p < order.len() ==> #[trigger] order[p] < g.nodes().len(),
    ensures
        state_lifetime(lifetime_state(g.nodes(), order), r) == lifetime_in(uses_seq(g.nodes(), order), r),
{
    let us = uses_seq(g.nodes(), order);
    g.lemma_distinct_slots();
    assert(slots_distinct(us)) by {
        assert forall|a: int, b: int|
            0 <= a < us.len() && 0 <= b < us.len() && (us[a].0 is Texture) == (us[b].0 is Texture) && us[a].0
                != us[b].0 implies slot_index(resource_key(#[trigger] us[a].0)) != slot_index(
            resource_key(#[trigger] us[b].0),
        ) by {
            lemma_uses_seq_member(g.nodes(), order, a);
            lemma_uses_seq_member(g.nodes(), order, b);
            let pa = choose|p: int| 0 <= p < order.len() && node_uses(g.nodes()[#[trigger] order[p] as int]).contains(us[a].0);
            let pb = choose|p: int| 0 <= p < order.len() && node_uses(g.nodes()[#[trigger] order[p] as int]).contains(us[b].0);
            assert(g.is_registered(us[a].0));
            assert(g.is_registered(us[b].0));
            match (us[a].0, us[b].0) {
                (ResourceHandle::Texture(x), ResourceHandle::Texture(y)) => {
                    crate::types::lemma_texture_key_injective(x, y);
                },
                (ResourceHandle::Buffer(x), ResourceHandle::Buffer(y)) => {
                    crate::types::lemma_buffer_key_injective(x, y);
                },
                _ => {},
            }
        }
    }
    lemma_lifetimes_are_first_and_last_uses(g.nodes(), order, r);
}

/// Each distinct descriptor is stored once, and the stored descriptors are
/// exactly those of the handles the graph handed out.
pub proof fn lemma_descriptors_stored_once<E>(g: &RenderGraph<E>)
    requires
        g.wf(),
    ensures
        g.texture_descs().no_duplicates(),
        g.texture_descs().to_set() == g.textures().values(),
        g.buffer_descs().no_duplicates(),
        g.buffer_descs().to_set() == g.buffers().values(),
{
    g.textures.lemma_unique_values();
    g.buffers.lemma_unique_values();
}

/// After a texture is added, its handle reads back the descriptor it was
/// added with, and every earlier handle still reads back its own.
pub proof fn lemma_texture_read_back<E>(before: &RenderGraph<E>, after: &RenderGraph<E>, h: TextureHandle, desc: TextureDesc)
    requires
        after.textures() == before.textures().insert(h.key(), desc),
    ensures
        after.textures().dom().contains(h.key()),
        after.textures()[h.key()] == desc,
        forall|k: u64| #[trigger] before.textures().dom().contains(k) && k != h.key() ==> after.textures().dom().contains(k)
            && after.textures()[k] == before.textures()[k],
{
}

/// After a buffer is added, its handle reads back the descriptor it was added
/// with, and every earlier handle still reads back its own.
pub proof fn lemma_buffer_read_back<E>(before: &RenderGraph<E>, after: &RenderGraph<E>, h: BufferHandle, desc: BufferDesc)
    requires
        after.buffers() == before.buffers().insert(h.key(), desc),
    ensures
        after.buffers().dom().contains(h.key()),
        after.buffers()[h.key()] == desc,
        forall|k: u64| #[trigger] before.buffers().dom().contains(k) && k != h.key() ==> after.buffers().dom().contains(k)
            && after.buffers()[k] == before.buffers()[k],
{
}

} // verus!
