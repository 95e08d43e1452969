//! The plain data of a render graph: handles, node descriptions, transfer
//! operations and resource descriptors.
use crate::slots::live_key;
use vstd::prelude::*;
use wgpu::TextureFormat;

verus! {

/// What a node of the graph does when it runs.
#[derive(Clone, Copy, Debug, PartialEq, Eq, Structural)]
pub enum NodeType {
    RenderPass,
    ComputePass,
    Transfer,
}

/// A handle to a buffer in a render graph. It carries a live slot-map key (as
/// `KeyData::as_ffi` gives it): one that the graph's buffer registry handed
/// out, or one rebuilt with [`SlotHandle::from_live_key`], which a graph may
/// not know.
#[derive(Clone, Copy, Debug, PartialEq, Eq, Hash, Structural)]
pub struct BufferHandle {
    key: u64,
}

/// A handle to a texture registered in a render graph; see [`BufferHandle`].
#[derive(Clone, Copy, Debug, PartialEq, Eq, Hash, Structural)]
pub struct TextureHandle {
    key: u64,
}

/// A handle to a pipeline, carried as the slot-map key value of whoever owns
/// the pipeline.
#[derive(Clone, Copy, Debug, PartialEq, Eq, Hash, Structural)]
pub struct PipelineHandle {
    key: u64,
}

/// A handle type that a registry can hand out: a wrapper of a live slot key.
pub trait SlotHandle: Sized + Copy {
    /// The slot key this handle carries.
    spec fn key(&self) -> u64;

    /// Wraps a live slot key.
    fn from_live_key(key: u64) -> (h: Self)
        requires
            live_key(key),
        ensures
            h.key() == key,
    ;

    /// The slot key, as `KeyData::as_ffi` would give it.
    fn as_ffi(&self) -> (k: u64)
        ensures
            k == self.key(),
            live_key(k),
    ;
}

impl BufferHandle {
    #[verifier::type_invariant]
    spec fn key_is_live(self) -> bool {
        live_key(self.key)
    }
}

impl SlotHandle for BufferHandle {
    closed spec fn key(&self) -> u64 {
        self.key
    }

    fn from_live_key(key: u64) -> (h: Self) {
        BufferHandle { key }
    }

    fn as_ffi(&self) -> (k: u64) {
        proof {
            use_type_invariant(self);
        }
        self.key
    }
}

impl TextureHandle {
    #[verifier::type_invariant]
    spec fn key_is_live(self) -> bool {
        live_key(self.key)
    }
}

impl SlotHandle for TextureHandle {
    closed spec fn key(&self) -> u64 {
        self.key
    }

    fn from_live_key(key: u64) -> (h: Self) {
        TextureHandle { key }
    }

    fn as_ffi(&self) -> (k: u64) {
        proof {
            use_type_invariant(self);
        }
        self.key
    }
}

impl PipelineHandle {
    pub closed spec fn key(self) -> u64 {
        self.key
    }

    /// A pipeline handle from its owner's key value.
    pub fn from_ffi(key: u64) -> (h: Self)
        ensures
            h.key() == key,
    {
        PipelineHandle { key }
    }

    /// The key value this handle carries.
    pub fn as_ffi(&self) -> (k: u64)
        ensures
            k == self.key(),
    {
        self.key
    }
}

/// A resource that a node reads or writes.
#[derive(Clone, Copy, Debug, PartialEq, Eq, Hash, Structural)]
pub enum ResourceHandle {
    Buffer(BufferHandle),
    Texture(TextureHandle),
}

/// A resource a node reads, with the binding slot it was given.
#[derive(Clone, Copy, Debug, PartialEq, Eq, Structural)]
pub struct NodeInput {
    pub binding: u32,
    pub resource: ResourceHandle,
}

/// A resource a node writes, with the binding slot it was given.
#[derive(Clone, Copy, Debug, PartialEq, Eq, Structural)]
pub struct NodeOutput {
    pub binding: u32,
    pub resource: ResourceHandle,
}

/// The kind of a resource.
#[derive(Clone, Copy, Debug, PartialEq, Eq, Hash, Structural)]
pub enum ResourceType {
    Buffer,
    Texture,
}

/// The kind of a pipeline.
#[derive(Clone, Copy, Debug, PartialEq, Eq, Structural)]
pub enum PipelineType {
    Render { state: bool },
    Compute,
}

/// Bytes to upload into a resource at an offset.
pub struct UploadOp {
    pub target: ResourceHandle,
    pub offset: u64,
    pub data: Vec<u8>,
}

/// A read-back of `size` bytes of a resource at an offset.
pub struct DownloadOp {
    pub source: ResourceHandle,
    pub offset: u64,
    pub size: u64,
    pub data: Vec<u8>,
}

/// A copy of `size` bytes from one resource to another.
#[derive(Clone, Copy, Debug, PartialEq, Eq, Structural)]
pub struct CopyOp {
    pub src: ResourceHandle,
    pub dst: ResourceHandle,
    pub size: u64,
    pub src_offset: u64,
    pub dst_offset: u64,
}

/// A node (pass) of a render graph. `E` is the type of the work the node
/// runs when the graph executes it; the graph only stores it.
pub struct Node<E> {
    pub name: String,
    pub kind: NodeType,
    pub inputs: Vec<NodeInput>,
    pub outputs: Vec<NodeOutput>,
    pub depth_texture: Option<ResourceHandle>,
    pub pipeline: Option<PipelineHandle>,
    pub execute: Option<E>,
}

/// Descriptors that a registry deduplicates: equality is decidable.
pub trait Descriptor: Sized + Copy {
    fn same(&self, other: &Self) -> (r: bool)
        ensures
            r == (*self == *other),
    ;
}

/// How a buffer is created. `usage` holds the bits of `wgpu::BufferUsages`.
#[derive(Clone, Copy, Debug, PartialEq, Eq, Hash, Structural)]
pub struct BufferDesc {
    pub size: u64,
    pub usage: u32,
    pub mapped_at_creation: bool,
}

impl Descriptor for BufferDesc {
    fn same(&self, other: &Self) -> (r: bool) {
        *self == *other
    }
}

/// The size of a texture (`wgpu::Extent3d`).
#[derive(Clone, Copy, Debug, PartialEq, Eq, Hash, Structural)]
pub struct Extent3d {
    pub width: u32,
    pub height: u32,
    pub depth_or_array_layers: u32,
}

/// The dimensionality of a texture (`wgpu::TextureDimension`).
#[derive(Clone, Copy, Debug, PartialEq, Eq, Hash, Structural)]
pub enum TextureDimension {
    D1,
    D2,
    D3,
}

#[verifier::external_type_specification]
#[verifier::external_body]
pub struct ExTextureFormat(TextureFormat);

/// `PartialEq::eq` of `wgpu::TextureFormat`, which is derived: two formats
/// compare equal exactly when they are the same value.
#[verifier::external_body]
fn texture_format_eq(a: &TextureFormat, b: &TextureFormat) -> (r: bool)
    ensures
        r == (*a == *b),
{
    a == b
}

/// How a texture is created. `usage` holds the bits of `wgpu::TextureUsages`.
#[derive(Clone, Copy, Debug, PartialEq, Eq, Hash)]
pub struct TextureDesc {
    pub size: Extent3d,
    pub dimension: TextureDimension,
    pub format: TextureFormat,
    pub usage: u32,
}

impl Descriptor for TextureDesc {
    fn same(&self, other: &Self) -> (r: bool) {
        let same_format = texture_format_eq(&self.format, &other.format);
        let r = self.size == other.size && self.dimension == other.dimension && same_format
            && self.usage == other.usage;
        assert(r ==> *self == *other);
        r
    }
}

} // verus!

verus! {

/// Two texture handles with the same key are the same handle.
pub proof fn lemma_texture_key_injective(a: TextureHandle, b: TextureHandle)
    ensures
        a.key() == b.key() ==> a == b,
{
}

/// Two buffer handles with the same key are the same handle.
pub proof fn lemma_buffer_key_injective(a: BufferHandle, b: BufferHandle)
    ensures
        a.key() == b.key() ==> a == b,
{
}

} // verus!
