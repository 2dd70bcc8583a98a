use sprite_batch::components::{
    encode_record, CameraData, Mat4Bits, Sprite, SpriteData, Transform, Vec2Bits, Vec4Bits,
};
use sprite_batch::pipelines::sprite::{sort_by_texture, DrawSpan, SpritePipeline, STRIDE};
use sprite_batch::renderer::Resources;

fn vec4(x: u32, y: u32, z: u32, w: u32) -> Vec4Bits {
    Vec4Bits { x, y, z, w }
}

fn transform(tag: u32) -> Transform {
    Transform {
        position: vec4(tag, 2, 3, 4),
        rotation: vec4(0, 0, 0, 0),
        size: vec4(5, 5, 1, 1),
    }
}

fn sprite(texture: u64, tag: u32) -> Sprite {
    Sprite {
        data: SpriteData {
            texture_position: Vec2Bits { x: tag, y: 0 },
            texture_size: Vec2Bits { x: 1, y: 1 },
        },
        texture,
    }
}

fn camera() -> CameraData {
    CameraData {
        projection: Mat4Bits {
            x: vec4(1, 0, 0, 0),
            y: vec4(0, 1, 0, 0),
            z: vec4(0, 0, 1, 0),
            w: vec4(0, 0, 0, 1),
        },
    }
}

/// A pipeline over plain integer stand-ins for the GPU objects, with its
/// camera and initial 16-byte instance buffer already registered.
fn fresh_pipeline(res: &mut Resources<u32, u32>) -> SpritePipeline<u32> {
    let vertex_buffer = res.load_buffer(100);
    let camera_buffer = res.load_buffer(200);
    SpritePipeline::new(camera_buffer, vertex_buffer)
}

/// Runs the full per-frame protocol: size the buffer, create the missing
/// bind groups (an arbitrary integer stands in for each), prepare.
fn run_prepare(
    pipeline: &mut SpritePipeline<u32>,
    res: &mut Resources<u32, u32>,
    data: &Vec<(Transform, Sprite)>,
) -> Vec<u8> {
    let count = data.len() as u64;
    let new_buffer = pipeline.growth_needed(count).map(|_| 777);
    pipeline.update_element_count(res, count, new_buffer);
    let missing = pipeline.missing_textures(data);
    let groups: Vec<(u64, u32)> = missing.iter().map(|t| (*t, 1000 + *t as u32)).collect();
    pipeline.install_bind_groups(groups);
    pipeline.prepare(data, &camera())
}

#[test]
fn record_encoding_is_little_endian_and_64_bytes() {
    let t = transform(0x0a0b0c0d);
    let s = sprite(7, 0x01020304);
    let mut out = Vec::new();
    encode_record(&mut out, &t, &s.data);
    assert_eq!(out.len(), 64);
    // transform.position.x = 0x0a0b0c0d, little endian
    assert_eq!(&out[0..4], &[0x0d, 0x0c, 0x0b, 0x0a]);
    // transform.position.y = 2
    assert_eq!(&out[4..8], &[2, 0, 0, 0]);
    // sprite data starts at byte 48: texture_position.x = 0x01020304
    assert_eq!(&out[48..52], &[0x04, 0x03, 0x02, 0x01]);
    // texture_size = (1, 1) fills the last 8 bytes
    assert_eq!(&out[56..60], &[1, 0, 0, 0]);
    assert_eq!(&out[60..64], &[1, 0, 0, 0]);
}

#[test]
fn camera_uniform_is_64_bytes() {
    let cam = camera();
    let bytes = cam.encode();
    assert_eq!(bytes.len(), 64);
    assert_eq!(&bytes[0..4], &[1, 0, 0, 0]);
    // second column starts at byte 16
    assert_eq!(&bytes[16..20], &[0, 0, 0, 0]);
    assert_eq!(&bytes[20..24], &[1, 0, 0, 0]);
}

#[test]
fn sprite_data_accessor_returns_the_rectangle() {
    let s = sprite(3, 42);
    assert_eq!(s.data().texture_position.x, 42);
    assert_eq!(s.data().texture_size.x, 1);
}

#[test]
fn sort_is_stable_within_equal_textures() {
    let data = vec![
        (transform(0), sprite(9, 0)),
        (transform(1), sprite(2, 1)),
        (transform(2), sprite(9, 2)),
        (transform(3), sprite(2, 3)),
    ];
    let sorted = sort_by_texture(&data);
    let tags: Vec<(u64, u32)> =
        sorted.iter().map(|p| (p.1.texture, p.0.position.x)).collect();
    // texture 2 first (stream order 1 then 3), then texture 9 (0 then 2)
    assert_eq!(tags, vec![(2, 1), (2, 3), (9, 0), (9, 2)]);
}

#[test]
fn empty_world_prepares_no_spans() {
    let mut res: Resources<u32, u32> = Resources::new();
    let mut pipeline = fresh_pipeline(&mut res);
    let data: Vec<(Transform, Sprite)> = Vec::new();
    let cam_bytes = run_prepare(&mut pipeline, &mut res, &data);
    assert_eq!(cam_bytes.len(), 64);
    assert!(pipeline.draw_instances.is_empty());
    assert!(pipeline.vertex_buffer_data.is_empty());
    assert_eq!(pipeline.vertex_buffer_size, 16);
}

#[test]
fn single_texture_batch_is_one_span() {
    let mut res: Resources<u32, u32> = Resources::new();
    let mut pipeline = fresh_pipeline(&mut res);
    let texture = 5;
    let mut data = Vec::new();
    for i in 0..500 {
        data.push((transform(i), sprite(texture, i)));
    }
    run_prepare(&mut pipeline, &mut res, &data);
    assert_eq!(
        pipeline.draw_instances,
        vec![DrawSpan { start: 0, end: 499, texture }]
    );
    assert_eq!(pipeline.vertex_buffer_data.len(), 500 * STRIDE as usize);
    // exactly one bind group was created
    assert_eq!(pipeline.bind_groups.len(), 1);
}

#[test]
fn interleaved_textures_merge_into_two_spans() {
    let a = 10;
    let b = 20;
    let mut res: Resources<u32, u32> = Resources::new();
    let mut pipeline = fresh_pipeline(&mut res);
    let data = vec![
        (transform(0), sprite(a, 0)),
        (transform(1), sprite(b, 1)),
        (transform(2), sprite(a, 2)),
        (transform(3), sprite(b, 3)),
    ];
    run_prepare(&mut pipeline, &mut res, &data);
    assert_eq!(
        pipeline.draw_instances,
        vec![
            DrawSpan { start: 0, end: 1, texture: a },
            DrawSpan { start: 2, end: 3, texture: b },
        ]
    );
    // stable order within each span: the staging buffer holds the
    // records of sprites 0 and 2 (texture a) then 1 and 3 (texture b)
    let expected_tags = [0u8, 2, 1, 3];
    for (i, tag) in expected_tags.iter().enumerate() {
        // position.x of the i-th record sits at byte i * 64
        assert_eq!(pipeline.vertex_buffer_data[i * 64], *tag);
    }
}

#[test]
fn spans_partition_without_gaps_or_overlaps() {
    let mut res: Resources<u32, u32> = Resources::new();
    let mut pipeline = fresh_pipeline(&mut res);
    let textures = [3u64, 1, 4, 1, 5, 9, 2, 6, 5, 3, 5];
    let mut data = Vec::new();
    for (i, t) in textures.iter().enumerate() {
        data.push((transform(i as u32), sprite(*t, i as u32)));
    }
    run_prepare(&mut pipeline, &mut res, &data);
    let spans = &pipeline.draw_instances;
    // ascending, contiguous, covering [0, n)
    assert_eq!(spans[0].start, 0);
    assert_eq!(spans[spans.len() - 1].end as usize, textures.len() - 1);
    for w in spans.windows(2) {
        assert_eq!(w[0].end + 1, w[1].start);
        assert_ne!(w[0].texture, w[1].texture, "neighbouring spans must differ");
    }
    // grouping: every covered instance's texture is the span's texture
    let mut sorted = textures.to_vec();
    sorted.sort();
    for span in spans.iter() {
        for i in span.start..=span.end {
            assert_eq!(sorted[i as usize], span.texture);
        }
    }
    // one span per distinct texture
    let mut distinct = textures.to_vec();
    distinct.sort();
    distinct.dedup();
    assert_eq!(spans.len(), distinct.len());
    assert_eq!(pipeline.bind_groups.len(), distinct.len());
}

#[test]
fn bind_group_cache_counts_distinct_textures_once() {
    let mut res: Resources<u32, u32> = Resources::new();
    let mut pipeline = fresh_pipeline(&mut res);
    let data = vec![
        (transform(0), sprite(7, 0)),
        (transform(1), sprite(8, 1)),
        (transform(2), sprite(7, 2)),
    ];
    run_prepare(&mut pipeline, &mut res, &data);
    assert_eq!(pipeline.bind_groups.len(), 2);
    // preparing the same batch again creates nothing new
    run_prepare(&mut pipeline, &mut res, &data);
    assert_eq!(pipeline.bind_groups.len(), 2);
    // one more texture adds exactly one bind group
    let more = vec![
        (transform(0), sprite(7, 0)),
        (transform(1), sprite(30, 1)),
    ];
    run_prepare(&mut pipeline, &mut res, &more);
    assert_eq!(pipeline.bind_groups.len(), 3);
}

#[test]
fn growth_doubles_from_16_to_1024_for_640_bytes() {
    let mut res: Resources<u32, u32> = Resources::new();
    let mut pipeline = fresh_pipeline(&mut res);
    assert_eq!(pipeline.vertex_buffer_size, 16);
    // 10 instances of 64 bytes = 640 bytes: 16 -> 32 -> ... -> 1024
    assert_eq!(pipeline.growth_needed(10), Some(1024));
    let old_handle = pipeline.vertex_buffer;
    pipeline.update_element_count(&mut res, 10, Some(777));
    assert_eq!(pipeline.vertex_buffer_size, 1024);
    assert_eq!(pipeline.vertex_buffer_data.len(), 640);
    assert_ne!(pipeline.vertex_buffer, old_handle);
    assert!(!res.buffers.contains(old_handle));
    assert!(res.buffers.contains(pipeline.vertex_buffer));
}

#[test]
fn capacity_never_shrinks_and_stays_sufficient() {
    let mut res: Resources<u32, u32> = Resources::new();
    let mut pipeline = fresh_pipeline(&mut res);
    let counts = [1u64, 10, 3, 0, 100, 7, 100, 1];
    let mut last = pipeline.vertex_buffer_size;
    for count in counts {
        let new_buffer = pipeline.growth_needed(count).map(|_| 900);
        pipeline.update_element_count(&mut res, count, new_buffer);
        let cap = pipeline.vertex_buffer_size;
        assert!(cap >= last, "capacity must never decrease");
        assert!(cap >= count * STRIDE, "capacity must hold the batch");
        assert!(cap % 16 == 0 && (cap / 16).is_power_of_two(), "power-of-two multiple of 16");
        last = cap;
    }
    assert_eq!(last, 8192); // first doubling of 16 holding 6400 bytes
}
