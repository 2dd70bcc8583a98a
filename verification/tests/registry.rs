use sprite_batch::handles::{HandleMap, KeyedCache};
use sprite_batch::pipelines::PipelineRegistry;
use sprite_batch::renderer::{get_aligned, get_buffer_size, Resources, BIND_BUFFER_ALIGNMENT};
use sprite_batch::states::EmptyState;

#[test]
fn aligned_rounds_up_to_next_block() {
    // size_of::<u64>() = 8: 16 * (8 / 16) + 16 = 16
    assert_eq!(get_aligned::<u64>(16), 16);
    // size_of::<[u8; 32]>() = 32: 16 * 2 + 16 = 48 (a full extra block)
    assert_eq!(get_aligned::<[u8; 32]>(16), 48);
    assert_eq!(get_aligned::<u8>(4), 4);
}

#[test]
fn buffer_size_respects_uniform_alignment() {
    assert_eq!(BIND_BUFFER_ALIGNMENT, 256);
    // 64-byte uniform fits in one 256-byte block
    assert_eq!(get_buffer_size::<[u8; 64]>(), 256);
    // 300 bytes needs a second block: 256 * 1 + 256 = 512
    assert_eq!(get_buffer_size::<[u8; 300]>(), 512);
}

#[test]
fn handle_map_assigns_fresh_increasing_handles() {
    let mut m: HandleMap<&'static str> = HandleMap::new();
    let a = m.insert("alpha");
    let b = m.insert("beta");
    assert_eq!(a, 0);
    assert_eq!(b, 1);
    assert!(m.contains(a));
    assert!(m.contains(b));
    assert_eq!(m.get(a), Some(&"alpha"));
    assert_eq!(m.get(b), Some(&"beta"));
    assert_eq!(m.len(), 2);

    let gone = m.remove(a);
    assert_eq!(gone, "alpha");
    assert!(!m.contains(a));
    assert_eq!(m.get(a), None);
    assert_eq!(m.len(), 1);

    // the freed handle is never reassigned
    let c = m.insert("gamma");
    assert_eq!(c, 2);
    assert!(!m.contains(a));
}

#[test]
fn keyed_cache_stores_under_chosen_keys() {
    let mut c: KeyedCache<u32> = KeyedCache::new();
    assert!(!c.contains(7));
    c.insert(7, 700);
    c.insert(9, 900);
    assert_eq!(c.len(), 2);
    assert_eq!(c.get(7), Some(&700));
    assert_eq!(c.get(9), Some(&900));
    assert_eq!(c.get(8), None);
    assert_eq!(c.remove(7), 700);
    assert!(!c.contains(7));
    assert_eq!(c.len(), 1);
}

#[test]
fn buffer_registry_owns_and_destroys() {
    let mut res: Resources<String, u32> = Resources::new();
    let a = res.load_buffer(String::from("vertex storage"));
    let b = res.load_buffer(String::from("camera uniform"));
    assert_eq!(a, 0);
    assert_eq!(b, 1);
    assert_eq!(res.get_buffer(a), "vertex storage");
    assert_eq!(res.get_buffer(b), "camera uniform");

    let dropped = res.unload_buffer(a);
    assert_eq!(dropped, "vertex storage");
    assert_eq!(res.get_buffer(b), "camera uniform");

    // the next buffer gets a brand new handle, not the freed one
    let c = res.load_buffer(String::from("replacement"));
    assert_eq!(c, 2);
}

#[test]
fn load_texture_is_idempotent() {
    let mut res: Resources<u32, String> = Resources::new();
    let path = String::from("atlas/monochrome.png");

    // first load: miss, decode and register
    assert_eq!(res.lookup_texture(&path), None);
    let h = res.register_texture(&path, String::from("pixels-a"));
    assert_eq!(h, 0);

    // second load: cache hit, same handle both times, nothing uploaded
    assert_eq!(res.lookup_texture(&path), Some(h));
    assert_eq!(res.lookup_texture(&path), Some(h));
    assert_eq!(res.textures.len(), 1);
    assert_eq!(res.get_texture(h), "pixels-a");

    // a different path gets a different handle
    let other = String::from("atlas/colored.png");
    assert_eq!(res.lookup_texture(&other), None);
    let h2 = res.register_texture(&other, String::from("pixels-b"));
    assert_ne!(h2, h);
    assert_eq!(res.lookup_texture(&path), Some(h));
    assert_eq!(res.lookup_texture(&other), Some(h2));
}

#[test]
fn stale_cache_entry_is_repointed_on_reload() {
    let mut res: Resources<u32, String> = Resources::new();
    let path = String::from("atlas/a.png");
    let h = res.register_texture(&path, String::from("pixels"));
    assert_eq!(res.lookup_texture(&path), Some(h));

    // destroy the texture behind the cached handle: the cached entry is
    // stale now and the load must miss
    res.textures.remove(h);
    assert_eq!(res.lookup_texture(&path), None);

    // reloading the same path files a new texture under a fresh handle
    let h2 = res.register_texture(&path, String::from("pixels again"));
    assert_ne!(h2, h);
    assert_eq!(res.lookup_texture(&path), Some(h2));
    assert_eq!(res.textures.len(), 1);
}

#[test]
fn pipeline_registry_is_a_lazy_singleton() {
    let mut reg: PipelineRegistry<Vec<u8>> = PipelineRegistry::new();
    assert!(!reg.is_ready());
    reg.install(vec![1, 2, 3]);
    assert!(reg.is_ready());
    {
        let p = reg.get_pipeline_mut();
        p.push(4);
    }
    // every access sees the same instance
    assert_eq!(reg.get_pipeline_mut().as_slice(), &[1, 2, 3, 4]);
}

#[test]
fn empty_state_exists() {
    let _state = EmptyState::new();
}
