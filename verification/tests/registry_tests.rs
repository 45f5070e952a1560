use terrashin::terrain::resource_registry::{ResourceKey, ResourceRegistry};
use terrashin::terrain::{NodeId, TerrainSystem};

fn device() -> wgpu::Device {
    wgpu::Device::noop(&wgpu::DeviceDescriptor::default()).0
}

fn texture(device: &wgpu::Device) -> wgpu::Texture {
    device.create_texture(&wgpu::TextureDescriptor {
        label: None,
        size: wgpu::Extent3d { width: 1, height: 1, depth_or_array_layers: 1 },
        mip_level_count: 1,
        sample_count: 1,
        dimension: wgpu::TextureDimension::D2,
        format: wgpu::TextureFormat::Rgba8Unorm,
        usage: wgpu::TextureUsages::TEXTURE_BINDING,
        view_formats: &[],
    })
}

fn view(texture: &wgpu::Texture) -> wgpu::TextureView {
    texture.create_view(&wgpu::TextureViewDescriptor::default())
}

#[test]
fn view_read_gives_back_what_was_written() {
    let device = device();
    let t = texture(&device);
    let v = view(&t);
    let mut reg = ResourceRegistry::new();
    let key = ResourceKey::output(NodeId(0), "Output".to_string());
    assert!(reg.get_view(&key).is_none());
    assert!(reg.insert_view(key.clone(), v.clone()).is_none());
    assert_eq!(reg.get_view(&key), Some(&v));
    assert!(reg.get_view(&ResourceKey::input(NodeId(0), "Output".to_string())).is_none());
}

#[test]
fn writing_a_key_again_replaces_and_returns_the_old_value() {
    let device = device();
    let t = texture(&device);
    let first = view(&t);
    let second = view(&t);
    assert_ne!(first, second);
    let mut reg = ResourceRegistry::new();
    let key = ResourceKey::output(NodeId(1), "Output".to_string());
    reg.insert_view(key.clone(), first.clone());
    assert_eq!(reg.insert_view(key.clone(), second.clone()), Some(first));
    assert_eq!(reg.get_view(&key), Some(&second));
}

#[test]
fn textures_are_stored_by_key() {
    let device = device();
    let t = texture(&device);
    let mut reg = ResourceRegistry::new();
    let key = ResourceKey::internal(NodeId(2), "Scratch".to_string());
    assert!(reg.insert_texture(key.clone(), t.clone()).is_none());
    assert_eq!(reg.get_texture(&key), Some(&t));
    assert!(reg.get_texture(&ResourceKey::output(NodeId(2), "Scratch".to_string())).is_none());
    assert!(reg.get_view(&key).is_none());
}

#[test]
fn bridge_hands_the_output_view_to_the_input() {
    let device = device();
    let t = texture(&device);
    let v = view(&t);
    let mut reg = ResourceRegistry::new();
    let from = ResourceKey::output(NodeId(0), "Output".to_string());
    let to = ResourceKey::input(NodeId(1), "In".to_string());
    reg.insert_view(from.clone(), v.clone());
    reg.bridge(&from, to.clone());
    assert_eq!(reg.get_view(&to), Some(&v));
    assert_eq!(reg.get_view(&from), Some(&v));
}

#[test]
fn bridge_from_a_missing_view_changes_nothing() {
    let device = device();
    let t = texture(&device);
    let v = view(&t);
    let mut reg = ResourceRegistry::new();
    let from = ResourceKey::output(NodeId(0), "Output".to_string());
    let to = ResourceKey::input(NodeId(1), "In".to_string());
    reg.insert_view(to.clone(), v.clone());
    reg.bridge(&from, to.clone());
    assert_eq!(reg.get_view(&to), Some(&v));
    assert!(reg.get_view(&from).is_none());
}

#[test]
fn terrain_system_reads_outputs_from_its_registry() {
    let device = device();
    let t = texture(&device);
    let v = view(&t);
    let mut terrain = TerrainSystem::new();
    let key = ResourceKey::output(NodeId(0), "Output".to_string());
    terrain.resources_mut().insert_view(key.clone(), v.clone());
    assert_eq!(terrain.get_output(key), Some(&v));
    assert!(terrain.get_output(ResourceKey::output(NodeId(1), "Output".to_string())).is_none());
}
