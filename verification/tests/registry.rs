use render_graph::registry::InstanceRegistry;
use render_graph::types::{BufferDesc, BufferHandle, SlotHandle, TextureDesc, TextureHandle};

fn buf(size: u64) -> BufferDesc {
    BufferDesc { size, usage: 0, mapped_at_creation: false }
}

#[test]
fn equal_values_get_distinct_handles_and_read_back_equal() {
    let mut reg: InstanceRegistry<BufferHandle, BufferDesc> = InstanceRegistry::new();
    let a = reg.insert(buf(4));
    let b = reg.insert(buf(4));
    let c = reg.insert(buf(9));
    assert_ne!(a, b);
    assert_ne!(a.as_ffi(), c.as_ffi());
    assert_eq!(reg.get(a), Some(&buf(4)));
    assert_eq!(reg.get(b), Some(&buf(4)));
    assert_eq!(reg.get(c), Some(&buf(9)));
}

#[test]
fn handles_of_another_registry_are_unknown() {
    let mut reg: InstanceRegistry<BufferHandle, BufferDesc> = InstanceRegistry::new();
    let mut other: InstanceRegistry<BufferHandle, BufferDesc> = InstanceRegistry::new();
    reg.insert(buf(1));
    other.insert(buf(1));
    other.insert(buf(1));
    let third = other.insert(buf(2));
    assert_eq!(reg.get(third), None);
    assert_eq!(other.get(third), Some(&buf(2)));
}

fn tex(format: wgpu::TextureFormat) -> render_graph::types::TextureDesc {
    render_graph::types::TextureDesc {
        size: render_graph::types::Extent3d { width: 2, height: 2, depth_or_array_layers: 1 },
        dimension: render_graph::types::TextureDimension::D2,
        format,
        usage: 0,
    }
}

#[test]
fn equal_values_are_stored_once() {
    let mut reg: InstanceRegistry<BufferHandle, BufferDesc> = InstanceRegistry::new();
    reg.insert(buf(4));
    reg.insert(buf(5));
    reg.insert(buf(4));
    assert_eq!(reg.distinct_values(), &vec![buf(4), buf(5)]);
}

#[test]
fn textures_differing_only_in_format_are_distinct() {
    let mut reg: InstanceRegistry<TextureHandle, TextureDesc> = InstanceRegistry::new();
    let a = reg.insert(tex(wgpu::TextureFormat::Rgba8Unorm));
    let b = reg.insert(tex(wgpu::TextureFormat::Bgra8Unorm));
    let c = reg.insert(tex(wgpu::TextureFormat::Rgba8Unorm));
    assert_eq!(reg.distinct_values().len(), 2);
    assert_eq!(reg.get(a).unwrap().format, wgpu::TextureFormat::Rgba8Unorm);
    assert_eq!(reg.get(b).unwrap().format, wgpu::TextureFormat::Bgra8Unorm);
    assert_eq!(reg.get(c), reg.get(a));
}

#[test]
fn handle_count_counts_every_registration() {
    let mut reg: InstanceRegistry<BufferHandle, BufferDesc> = InstanceRegistry::new();
    assert_eq!(reg.handle_count(), 0);
    reg.insert(buf(1));
    reg.insert(buf(1));
    reg.insert(buf(2));
    assert_eq!(reg.handle_count(), 3);
    assert_eq!(reg.distinct_values().len(), 2);
}
