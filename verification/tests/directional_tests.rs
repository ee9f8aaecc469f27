//! Directional light manager: packing, texture array layers, bind group
//! identity across ready calls.

use render_core::directional::{
    DirectionalLight, DirectionalLightChange, DirectionalLightManager, Vec3Words,
};

fn light(seed: u32) -> DirectionalLight {
    DirectionalLight {
        color: Vec3Words { x: seed, y: seed + 1, z: seed + 2 },
        direction: Vec3Words { x: seed + 3, y: seed + 4, z: seed + 5 },
        intensity: seed + 6,
    }
}

fn u32_at(bytes: &[u8], offset: usize) -> u32 {
    u32::from_le_bytes([bytes[offset], bytes[offset + 1], bytes[offset + 2], bytes[offset + 3]])
}

#[test]
fn ready_packs_header_and_records_in_order() {
    let mut mgr = DirectionalLightManager::new();
    let a = mgr.allocate();
    let b = mgr.allocate();
    let c = mgr.allocate();
    mgr.fill(a, light(100));
    mgr.fill(b, light(200));
    mgr.fill(c, light(300));
    let out = mgr.ready();
    // Header: element count in the first word, padding after it.
    assert_eq!(out.payload.len(), 16 + 3 * 32);
    assert_eq!(u32_at(&out.payload, 0), 3);
    assert_eq!(u32_at(&out.payload, 4), 0);
    // Records follow in registry iteration (insertion) order:
    // direction, color, intensity, shadow layer.
    for (i, seed) in [100u32, 200, 300].iter().enumerate() {
        let base = 16 + i * 32;
        assert_eq!(u32_at(&out.payload, base), seed + 3);
        assert_eq!(u32_at(&out.payload, base + 4), seed + 4);
        assert_eq!(u32_at(&out.payload, base + 8), seed + 5);
        assert_eq!(u32_at(&out.payload, base + 12), *seed);
        assert_eq!(u32_at(&out.payload, base + 16), seed + 1);
        assert_eq!(u32_at(&out.payload, base + 20), seed + 2);
        assert_eq!(u32_at(&out.payload, base + 24), seed + 6);
        assert_eq!(u32_at(&out.payload, base + 28), i as u32);
    }
}

#[test]
fn end_to_end_lifecycle() {
    let mut mgr = DirectionalLightManager::new();
    let handles: Vec<_> = (0..3).map(|_| mgr.allocate()).collect();
    for (i, h) in handles.iter().enumerate() {
        mgr.fill(*h, light(10 * (i as u32 + 1)));
    }
    // First ready: texture array grows from 1 to 3 layers, payload header
    // counts 3 lights, bind group rebuilt.
    let out1 = mgr.ready();
    assert!(out1.texture_recreated);
    assert_eq!(out1.layer_count, 3);
    assert_eq!(u32_at(&out1.payload, 0), 3);
    assert!(out1.bind_group_rebuilt);
    let bg1 = mgr.get_bg();
    assert_eq!(out1.bind_group, bg1);

    // Remove one light: texture array recreated with 2 layers, bind group
    // identity changes.
    mgr.mark_removed(handles[1]);
    let out2 = mgr.ready();
    assert_eq!(out2.removed.len(), 1);
    assert!(out2.texture_recreated);
    assert_eq!(out2.layer_count, 2);
    assert_eq!(u32_at(&out2.payload, 0), 2);
    assert!(out2.bind_group_rebuilt);
    let bg2 = mgr.get_bg();
    assert_ne!(bg2, bg1);

    // No changes: nothing recreated, bind group identity unchanged.
    let out3 = mgr.ready();
    assert!(!out3.texture_recreated);
    assert!(!out3.buffer_reallocated);
    assert!(!out3.bind_group_rebuilt);
    assert_eq!(mgr.get_bg(), bg2);
}

#[test]
fn update_rederives_changed_fields_only() {
    let mut mgr = DirectionalLightManager::new();
    let a = mgr.allocate();
    mgr.fill(a, light(0));
    let before = *mgr.get(a);
    assert_eq!(before.shadow_tex, 0);
    mgr.update_directional_light(
        a,
        DirectionalLightChange {
            color: None,
            direction: Some(Vec3Words { x: 99, y: 98, z: 97 }),
            intensity: None,
        },
    );
    let after = *mgr.get(a);
    assert_eq!(after.inner.direction, Vec3Words { x: 99, y: 98, z: 97 });
    assert_eq!(after.inner.color, before.inner.color);
    assert_eq!(after.inner.intensity, before.inner.intensity);
    assert_eq!(after.shadow_tex, before.shadow_tex);
}

#[test]
fn layer_views_follow_texture_identity() {
    let mut mgr = DirectionalLightManager::new();
    let v0 = mgr.get_layer_view(0);
    let a = mgr.allocate();
    let b = mgr.allocate();
    mgr.fill(a, light(1));
    mgr.fill(b, light(2));
    let out = mgr.ready();
    assert!(out.texture_recreated);
    let v0_new = mgr.get_layer_view(0);
    let v1_new = mgr.get_layer_view(1);
    // Recreating the texture array regenerates every layer view.
    assert_ne!(v0_new.texture_id, v0.texture_id);
    assert_eq!(v0_new.texture_id, v1_new.texture_id);
    assert_eq!(v1_new.layer, 1);
}

#[test]
fn bgl_is_stable_for_the_manager_lifetime() {
    let mut mgr = DirectionalLightManager::new();
    let bgl0 = mgr.get_bgl();
    let a = mgr.allocate();
    mgr.fill(a, light(5));
    mgr.ready();
    assert_eq!(mgr.get_bgl(), bgl0);
    assert_eq!(bgl0.buffer_binding, 0);
    assert_eq!(bgl0.texture_binding, 1);
}

#[test]
fn buffer_grows_only_past_capacity() {
    let mut mgr = DirectionalLightManager::new();
    let a = mgr.allocate();
    mgr.fill(a, light(1));
    // 16-byte header + one 32-byte record outgrows the 1-byte start.
    let out1 = mgr.ready();
    assert!(out1.buffer_reallocated);
    assert_eq!(out1.buffer_capacity, 64);
    // A second light fits the header + two records into 128 bytes.
    let b = mgr.allocate();
    mgr.fill(b, light(2));
    let out2 = mgr.ready();
    assert!(out2.buffer_reallocated);
    assert_eq!(out2.buffer_capacity, 128);
    // Removing one shrinks the payload: no reallocation, capacity kept.
    mgr.mark_removed(b);
    let out3 = mgr.ready();
    assert!(!out3.buffer_reallocated);
    assert_eq!(out3.buffer_capacity, 128);
}
