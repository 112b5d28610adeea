use bevytiles::config::ZOOM_LEVELS;
use bevytiles::lod::{desired_tiles, LodOptions, Refine, TileKey};
use std::collections::HashSet;

/// Distance to the horizon from height h: d ≈ 3.57 km · √h.
const HORIZON_RATIO_M: f64 = 3570.0;

struct Options {
    lod: LodOptions,
    base_tile_size: f32,
    thresholds: [f32; ZOOM_LEVELS],
}

fn defaults() -> Options {
    Options {
        lod: LodOptions { base_zoom: 9, max_zoom: 15, radius: 6 },
        base_tile_size: 66_400.0,
        thresholds: [
            100_000.0, 80_000.0, 40_000.0, 20_000.0, 10_000.0, 5_000.0, 2_500.0, 1_250.0, 625.0, 312.0,
            156.0, 78.0, 39.0, 20.0,
        ],
    }
}

fn dist_sq_to_tile(cam: (f32, f32, f32), zoom_size: f64, x: i32, z: i32) -> f64 {
    let cx = (f64::from(x) + 0.5) * zoom_size;
    let cz = (f64::from(z) + 0.5) * zoom_size;
    let dx = f64::from(cam.0) - cx;
    let dz = f64::from(cam.2) - cz;
    dx * dx + dz * dz + f64::from(cam.1) * f64::from(cam.1)
}

/// The desired set for a camera, with the distance questions answered in
/// floating point as the engine glue does.
fn run(opts: &Options, cam: (f32, f32, f32)) -> Vec<TileKey> {
    let levels = (opts.lod.max_zoom - opts.lod.base_zoom) as usize + 1;
    let mut sizes = [0f64; ZOOM_LEVELS];
    let mut thresholds_sq = [0f64; ZOOM_LEVELS];
    for i in 0..levels {
        sizes[i] = f64::from(opts.base_tile_size) / f64::from(1u32 << i);
        let th = f64::from(opts.thresholds[i]);
        thresholds_sq[i] = th * th;
    }
    let base_size = f64::from(opts.base_tile_size);
    let cam_tile_x = (f64::from(cam.0) / base_size).floor() as i32;
    let cam_tile_z = (f64::from(cam.2) / base_size).floor() as i32;
    let render_radius_sq = HORIZON_RATIO_M * HORIZON_RATIO_M * f64::from(cam.1.max(1.0));
    let base_zoom = opts.lod.base_zoom;
    let classify = |k: TileKey| {
        let idx = (k.zoom - base_zoom) as usize;
        let d = dist_sq_to_tile(cam, sizes[idx], k.x, k.z);
        if d > render_radius_sq {
            Refine::Beyond
        } else if d >= thresholds_sq[idx] {
            Refine::Keep
        } else {
            Refine::Subdivide
        }
    };
    let mut out = Vec::new();
    desired_tiles(&opts.lod, cam_tile_x, cam_tile_z, classify, &mut out);
    out
}

fn probes() -> Vec<(f32, f32, f32)> {
    let ts = 66_400.0f32;
    let xz = [
        (0.0, 0.0),
        (0.5 * ts, 0.5 * ts),
        (0.25 * ts, 0.75 * ts),
        (3.3 * ts, -2.7 * ts),
        (-1.0 * ts, -1.0 * ts),
    ];
    let alts = [2.0f32, 500.0, 5_000.0, 60_000.0];
    xz.iter().flat_map(|&(x, z)| alts.iter().map(move |&y| (x, y, z))).collect()
}

#[test]
fn structural_invariants() {
    let opts = defaults();
    for cam in probes() {
        let keys = run(&opts, cam);
        let set: HashSet<_> = keys.iter().copied().collect();
        assert_eq!(set.len(), keys.len(), "duplicates at {cam:?}");
        for k in &keys {
            assert!(k.zoom >= opts.lod.base_zoom && k.zoom <= opts.lod.max_zoom);
            // no key together with an ancestor
            let (mut x, mut z) = (k.x, k.z);
            for zoom in (opts.lod.base_zoom..k.zoom).rev() {
                x >>= 1;
                z >>= 1;
                assert!(!set.contains(&TileKey { zoom, x, z }), "{k:?} has resident ancestor at {zoom}");
            }
        }
    }
}

#[test]
fn snapshots() {
    let opts = defaults();
    let a = run(&opts, (0.0, 500.0, 0.0));
    let b = run(&opts, (33_200.0, 5_000.0, 33_200.0));
    let c = run(&opts, (0.0, 60_000.0, 0.0));
    let count = |keys: &[TileKey], zoom: u8| keys.iter().filter(|k| k.zoom == zoom).count();
    let summary = (a.len(), count(&a, 15), b.len(), count(&b, 9), c.len(), count(&c, 15));
    assert_eq!(summary, (252, 64, 252, 36, 117, 0), "snapshot drift: {summary:?}");
}

#[test]
fn high_zoom_reachable_when_low_over_tile_center() {
    let mut opts = defaults();
    opts.lod.max_zoom = 17;
    let keys = run(&opts, (33_200.0, 500.0, 33_200.0));
    assert!(keys.iter().any(|k| k.zoom > 15));
}

#[test]
fn disc_of_radius_one_is_empty() {
    let opts = LodOptions { base_zoom: 9, max_zoom: 15, radius: 1 };
    let mut out = Vec::new();
    desired_tiles(&opts, 3, -4, |_k: TileKey| Refine::Keep, &mut out);
    assert!(out.is_empty());
}

#[test]
fn disc_of_radius_zero_is_the_camera_tile() {
    let opts = LodOptions { base_zoom: 9, max_zoom: 15, radius: 0 };
    let mut out = Vec::new();
    desired_tiles(&opts, 3, -4, |_k: TileKey| Refine::Keep, &mut out);
    assert_eq!(out, vec![TileKey { zoom: 9, x: 3, z: -4 }]);
}

#[test]
fn disc_scan_order_and_extent() {
    // radius 2: offsets with dx² + dz² < 1, i.e. only the centre
    let opts = LodOptions { base_zoom: 9, max_zoom: 9, radius: 2 };
    let mut out = Vec::new();
    desired_tiles(&opts, 0, 0, |_k: TileKey| Refine::Subdivide, &mut out);
    assert_eq!(out, vec![TileKey { zoom: 9, x: 0, z: 0 }]);
    // radius 3: dx² + dz² < 4 gives the 9 offsets with |dx|, |dz| <= 1 minus
    // none (max 2 < 4), in dx-major order
    let opts = LodOptions { base_zoom: 9, max_zoom: 9, radius: 3 };
    let mut out = Vec::new();
    desired_tiles(&opts, 10, 20, |_k: TileKey| Refine::Keep, &mut out);
    let expected: Vec<TileKey> = [(-1, -1), (-1, 0), (-1, 1), (0, -1), (0, 0), (0, 1), (1, -1), (1, 0), (1, 1)]
        .iter()
        .map(|&(dx, dz)| TileKey { zoom: 9, x: 10 + dx, z: 20 + dz })
        .collect();
    assert_eq!(out, expected);
}

#[test]
fn subdivision_order_and_beyond() {
    let opts = LodOptions { base_zoom: 9, max_zoom: 11, radius: 0 };
    let mut out = vec![TileKey { zoom: 1, x: 7, z: 7 }];
    // subdivide the root; of its children keep (1, 0), drop (0, 1), and
    // subdivide the others down to the top zoom
    desired_tiles(
        &opts,
        0,
        0,
        |k: TileKey| {
            if k.zoom == 9 {
                Refine::Subdivide
            } else if k.x == 1 && k.z == 0 {
                Refine::Keep
            } else if k.x == 0 && k.z == 1 {
                Refine::Beyond
            } else {
                Refine::Subdivide
            }
        },
        &mut out,
    );
    // existing content is kept
    assert_eq!(out[0], TileKey { zoom: 1, x: 7, z: 7 });
    let produced: Vec<(u8, i32, i32)> = out[1..].iter().map(|k| (k.zoom, k.x, k.z)).collect();
    assert_eq!(
        produced,
        vec![
            (11, 0, 0), (11, 1, 0), (11, 0, 1), (11, 1, 1),
            (10, 1, 0),
            (11, 2, 2), (11, 3, 2), (11, 2, 3), (11, 3, 3),
        ]
    );
}

#[test]
fn negative_coordinates_subdivide_below_zero() {
    let opts = LodOptions { base_zoom: 9, max_zoom: 10, radius: 0 };
    let mut out = Vec::new();
    desired_tiles(&opts, -1, -3, |_k: TileKey| Refine::Subdivide, &mut out);
    assert_eq!(
        out,
        vec![
            TileKey { zoom: 10, x: -2, z: -6 },
            TileKey { zoom: 10, x: -1, z: -6 },
            TileKey { zoom: 10, x: -2, z: -5 },
            TileKey { zoom: 10, x: -1, z: -5 },
        ]
    );
}
