use bevytiles::config::NetworkConfig;
use bevytiles::lod::TileKey;
use bevytiles::source::scheduler::{HeightmapPlan, JobAction, JobStep, ParentCache, TileSource, PARENT_CACHE_CAP};
use bevytiles::source::{
    decode_rgb, decode_rgba, expand_url, quadrant_chain, Kind, TileDrop, TileRequest, CANCELLED,
};
use bevytiles::text::{i32_to_decimal, replace_first_of, u32_to_decimal};
use std::io::Cursor;

fn key(zoom: u8, x: i32, z: i32) -> TileKey {
    TileKey { zoom, x, z }
}

fn req(zoom: u8, x: i32, z: i32) -> TileRequest {
    TileRequest { key: key(zoom, x, z), x: x + 1000, z: z + 2000 }
}

#[test]
fn network_defaults() {
    let cfg = NetworkConfig::default();
    assert_eq!(cfg.threads, 4);
    assert_eq!(cfg.cache_dir, ".cache");
    assert_eq!(cfg.native_terrain_zoom, 15);
    assert_eq!((cfg.connect_timeout_secs, cfg.read_timeout_secs), (5, 3));
    assert_eq!(Kind::Heightmap.url_template(&cfg), cfg.heightmap_url.as_str());
    assert_eq!(Kind::Normals.url_template(&cfg), cfg.normals_url.as_str());
}

#[test]
fn texture_template_uses_zoom_y_x_order() {
    let cfg = NetworkConfig::default();
    let url = expand_url(Kind::Texture.url_template(&cfg), 9, 306, 207);
    assert_eq!(
        url,
        "https://server.arcgisonline.com/ArcGIS/rest/services/World_Imagery/MapServer/tile/9/207/306"
    );
    let url = expand_url(Kind::Heightmap.url_template(&cfg), 15, 19614, 13291);
    assert_eq!(url, "https://s3.amazonaws.com/elevation-tiles-prod/terrarium/15/19614/13291.png");
}

#[test]
fn expand_url_replaces_first_token_only() {
    assert_eq!(expand_url(":x:/:x:/:zoom:/:y:", 0, -12, 2147483647), "-12/:x:/0/2147483647");
    assert_eq!(expand_url("no tokens", 3, 1, 2), "no tokens");
    assert_eq!(expand_url(":y:", 3, 1, -2147483648), "-2147483648");
}

#[test]
fn decimal_rendering() {
    assert_eq!(u32_to_decimal(0), "0");
    assert_eq!(u32_to_decimal(4294967295), "4294967295");
    assert_eq!(i32_to_decimal(-7), "-7");
    assert_eq!(i32_to_decimal(1000), "1000");
    assert_eq!(replace_first_of("aXbXc", "X", "yy"), "ayybXc");
    assert_eq!(replace_first_of("abc", "abcd", "z"), "abc");
    assert_eq!(replace_first_of("abc", "", "z"), "zabc");
}

fn png_of(width: u32, height: u32, rgb: Vec<u8>) -> Vec<u8> {
    let img = image::RgbImage::from_raw(width, height, rgb).unwrap();
    let mut bytes = Vec::new();
    image::DynamicImage::ImageRgb8(img).write_to(&mut Cursor::new(&mut bytes), image::ImageFormat::Png).unwrap();
    bytes
}

#[test]
fn decode_png_pixels() {
    let bytes = png_of(2, 1, vec![10, 20, 30, 40, 50, 60]);
    let rgba = decode_rgba(&bytes).ok().unwrap();
    assert_eq!((rgba.width, rgba.height), (2, 1));
    assert_eq!(rgba.data, vec![10, 20, 30, 255, 40, 50, 60, 255]);
    let rgb = decode_rgb(&bytes).ok().unwrap();
    assert_eq!(rgb.data, vec![10, 20, 30, 40, 50, 60]);
}

#[test]
fn decode_rejects_garbage() {
    let err = decode_rgba(b"definitely not an image").err().unwrap();
    assert!(err.starts_with("png "), "{err}");
    let bytes = png_of(2, 2, vec![0; 12]);
    let err = decode_rgb(&bytes[..bytes.len() / 2]).err().unwrap();
    assert!(err.starts_with("png decode: "), "{err}");
}

#[test]
fn quadrant_chain_bits() {
    // zoom 17 tile (x = 0b1011, z = -1) from native 15: levels 16 then 17
    let chain = quadrant_chain(15, 17, 0b1011, -1);
    assert_eq!(chain, vec![(1, 1), (1, 1)]);
    let chain = quadrant_chain(15, 18, 0b0110, 0b0001);
    assert_eq!(chain, vec![(1, 0), (1, 0), (0, 1)]);
    assert!(quadrant_chain(15, 15, 3, 3).is_empty());
}

#[test]
fn requests_dedup_and_respect_capacity() {
    let cfg = NetworkConfig { threads: 2, ..NetworkConfig::default() };
    let mut src = TileSource::new(&cfg);
    let p = src.request(req(10, 1, 1));
    assert_eq!(p.started, vec![req(10, 1, 1)]);
    let p = src.request(req(10, 1, 1));
    assert!(p.started.is_empty() && p.cancelled.is_empty());
    let p = src.request(req(10, 2, 2));
    assert_eq!(p.started, vec![req(10, 2, 2)]);
    let p = src.request(req(10, 3, 3));
    assert!(p.started.is_empty());
    assert!(src.in_flight(&key(10, 3, 3)));
    assert!(!src.is_running(&key(10, 3, 3)));
    assert!(src.is_running(&key(10, 1, 1)));
    // finishing frees a slot: the queued job starts
    let (answer, p) = src.finish(key(10, 1, 1), Ok(()));
    assert!(answer.is_none());
    assert_eq!(p.started, vec![req(10, 3, 3)]);
    assert!(!src.in_flight(&key(10, 1, 1)));
}

#[test]
fn cancelled_before_pickup_is_answered_without_a_slot() {
    let cfg = NetworkConfig { threads: 0, ..NetworkConfig::default() };
    let mut src = TileSource::new(&cfg);
    src.request(req(10, 1, 1));
    src.request(req(10, 2, 2));
    src.request(req(10, 3, 3));
    src.cancel(&key(10, 2, 2));
    src.cancel(&key(10, 9, 9));
    assert!(src.is_cancelled(&key(10, 2, 2)));
    assert!(!src.is_cancelled(&key(10, 9, 9)));
    let (answer, p) = src.finish(key(10, 1, 1), Err(String::from("GET u: HTTP 500 x")));
    match answer {
        Some(TileDrop::Failed(k, reason)) => {
            assert_eq!(k, key(10, 1, 1));
            assert_eq!(reason, "GET u: HTTP 500 x");
        },
        _ => panic!("expected a failure"),
    }
    assert_eq!(p.cancelled, vec![key(10, 2, 2)]);
    assert_eq!(p.started, vec![req(10, 3, 3)]);
    assert!(!src.in_flight(&key(10, 2, 2)));
    // the key can be requested again once answered
    let p = src.request(req(10, 2, 2));
    assert!(p.started.is_empty());
    assert!(src.in_flight(&key(10, 2, 2)));
}

#[test]
fn finish_answers_by_flag_and_reason() {
    let mut src = TileSource::new(&NetworkConfig::default());
    src.request(req(10, 1, 1));
    src.request(req(10, 2, 2));
    src.request(req(10, 3, 3));
    src.cancel(&key(10, 1, 1));
    let (answer, _) = src.finish(key(10, 1, 1), Ok(()));
    assert!(matches!(answer, Some(TileDrop::Cancelled(k)) if k == key(10, 1, 1)));
    let (answer, _) = src.finish(key(10, 2, 2), Err(String::from(CANCELLED)));
    assert!(matches!(answer, Some(TileDrop::Cancelled(k)) if k == key(10, 2, 2)));
    let (answer, _) = src.finish(key(10, 3, 3), Ok(()));
    assert!(answer.is_none());
}

#[test]
fn heightmaps_above_native_are_synthesized() {
    let src = TileSource::new(&NetworkConfig::default());
    let native = TileRequest { key: key(15, 3, 4), x: 19614, z: 13291 };
    assert_eq!(src.heightmap_plan(&native), HeightmapPlan::Fetch);
    assert!(src.fetches_normals(&native));
    let above = TileRequest { key: key(17, 3, 4), x: 78459, z: -13 };
    assert_eq!(src.heightmap_plan(&above), HeightmapPlan::Synthesize { native: 15, ax: 19614, az: -4 });
    assert!(!src.fetches_normals(&above));
    assert_eq!(
        src.url(Kind::Normals, 15, 19614, 13291),
        "https://s3.amazonaws.com/elevation-tiles-prod/normal/15/19614/13291.png"
    );
}

#[test]
fn parent_cache_flushes_when_full() {
    let mut cache: ParentCache<u32> = ParentCache::new();
    for i in 0..(PARENT_CACHE_CAP as i32 - 1) {
        cache.insert(i, -i, i as u32);
    }
    assert_eq!(cache.get(5, -5), Some(&5));
    // replacing below capacity keeps the others
    cache.insert(5, -5, 50);
    assert_eq!(cache.get(5, -5), Some(&50));
    assert_eq!(cache.get(6, -6), Some(&6));
    // the 64th entry still fits
    cache.insert(1000, 1000, 7);
    assert_eq!(cache.get(6, -6), Some(&6));
    // a full cache is flushed before the next insertion
    cache.insert(2000, 2000, 8);
    assert_eq!(cache.get(2000, 2000), Some(&8));
    assert_eq!(cache.get(6, -6), None);
    assert_eq!(cache.get(1000, 1000), None);
}

#[test]
fn chain_from_native_ancestor_lands_on_tile() {
    let src = TileSource::new(&NetworkConfig::default());
    for &(x, z) in &[(78459, -13), (-1, 5), (0, 1 << 20)] {
        let r = TileRequest { key: key(18, 0, 0), x, z };
        let HeightmapPlan::Synthesize { native, ax, az } = src.heightmap_plan(&r) else {
            panic!("expected synthesis");
        };
        let (mut cx, mut cz) = (ax, az);
        for (qx, qz) in quadrant_chain(native, 18, x, z) {
            cx = cx * 2 + qx as i32;
            cz = cz * 2 + qz as i32;
        }
        assert_eq!((cx, cz), (x, z));
    }
}

#[test]
fn cancelled_job_still_dedups_until_answered() {
    let cfg = NetworkConfig { threads: 1, ..NetworkConfig::default() };
    let mut src = TileSource::new(&cfg);
    src.request(req(10, 1, 1));
    src.cancel(&key(10, 1, 1));
    let p = src.request(req(10, 1, 1));
    assert!(p.started.is_empty() && p.cancelled.is_empty());
    let (answer, _) = src.finish(key(10, 1, 1), Ok(()));
    assert!(matches!(answer, Some(TileDrop::Cancelled(_))));
    let p = src.request(req(10, 1, 1));
    assert_eq!(p.started, vec![req(10, 1, 1)]);
}

#[test]
fn job_steps_follow_errors_and_cancel_flags() {
    let mut src = TileSource::new(&NetworkConfig::default());
    src.request(req(10, 1, 1));
    assert!(matches!(src.job_step(&key(10, 1, 1), JobStep::Albedo, Ok(())), JobAction::Continue));
    match src.job_step(&key(10, 1, 1), JobStep::Heightmap, Err(String::from("png decode: bad"))) {
        JobAction::Fail(reason) => assert_eq!(reason, "png decode: bad"),
        _ => panic!("expected a failure"),
    }
    assert!(matches!(
        src.job_step(&key(10, 1, 1), JobStep::Normals, Err(String::from("GET n: HTTP 404 x"))),
        JobAction::Deliver { flat_normals: true }
    ));
    assert!(matches!(src.job_step(&key(10, 1, 1), JobStep::Normals, Ok(())), JobAction::Deliver { flat_normals: false }));
    src.cancel(&key(10, 1, 1));
    assert!(matches!(src.job_step(&key(10, 1, 1), JobStep::Albedo, Ok(())), JobAction::Cancelled));
    // an error still wins over the flag
    assert!(matches!(src.job_step(&key(10, 1, 1), JobStep::Heightmap, Err(String::from("e"))), JobAction::Fail(_)));
    // normals never fail, cancelled or not
    assert!(matches!(src.job_step(&key(10, 1, 1), JobStep::Normals, Ok(())), JobAction::Deliver { flat_normals: false }));
}

#[test]
fn only_imagery_is_srgb() {
    assert!(Kind::Texture.is_srgb());
    assert!(!Kind::Heightmap.is_srgb());
    assert!(!Kind::Normals.is_srgb());
}
