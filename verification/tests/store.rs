use bevytiles::config::{TerrainStatus, WorldConfig};
use bevytiles::keys::{KeyMap, TileSet};
use bevytiles::lod::TileKey;
use std::collections::VecDeque;
use bevytiles::source::{TileDrop, TileRequest};
use bevytiles::store::{
    covered, handle_drop, mesh_resolutions, promote, promote_one, reconcile, request_tile, rgb_to_rgba, status, update_desired,
    CoverageDirty, TileIndex,
};

fn key(zoom: u8, x: i32, z: i32) -> TileKey {
    TileKey { zoom, x, z }
}

fn world() -> WorldConfig {
    WorldConfig { anchor_x: 306, anchor_z: 207, base_zoom: 9, max_zoom: 15 }
}

#[test]
fn key_map_reads_back_writes() {
    let mut m: KeyMap<u64> = KeyMap::new();
    assert!(m.is_empty());
    m.insert(key(9, 1, 2), 10);
    m.insert(key(10, 1, 2), 20);
    m.insert(key(9, 1, 2), 30);
    assert_eq!(m.len(), 2);
    assert_eq!(m.get(&key(9, 1, 2)), Some(&30));
    assert_eq!(m.get(&key(10, 1, 2)), Some(&20));
    assert_eq!(m.get(&key(11, 1, 2)), None);
    assert_eq!(m.remove(&key(9, 1, 2)), Some(30));
    assert_eq!(m.remove(&key(9, 1, 2)), None);
    assert!(!m.contains_key(&key(9, 1, 2)));
    assert_eq!(m.keys(), vec![key(10, 1, 2)]);
    m.clear();
    assert!(m.is_empty());
}

#[test]
fn tile_set_from_keys_dedups() {
    let s = TileSet::from_keys(&vec![key(9, 0, 0), key(9, 0, 1), key(9, 0, 0)]);
    assert_eq!(s.len(), 2);
    assert!(s.contains(&key(9, 0, 1)));
    let mut s = s;
    assert!(s.remove(&key(9, 0, 0)));
    assert!(!s.remove(&key(9, 0, 0)));
    assert!(s.insert(key(12, 5, 5)));
    assert!(!s.insert(key(12, 5, 5)));
    let mut v = s.to_vec();
    v.sort();
    assert_eq!(v, vec![key(9, 0, 1), key(12, 5, 5)]);
}

#[test]
fn request_resolves_anchor_at_zoom() {
    let mut index = TileIndex::new();
    let req = request_tile(&mut index, &world(), key(11, -3, 5));
    // anchor scaled by 2^(11 - 9) = 4
    assert_eq!(req, TileRequest { key: key(11, -3, 5), x: -3 + 306 * 4, z: 5 + 207 * 4 });
    assert!(index.loading.contains(&key(11, -3, 5)));
    let req = request_tile(&mut index, &world(), key(9, 0, 0));
    assert_eq!((req.x, req.z), (306, 207));
}

#[test]
fn coverage_by_parent_children_and_grandchildren() {
    let w = world();
    let mut res: KeyMap<u64> = KeyMap::new();
    // parent of (11, -3, 5) is (10, -2, 2)
    res.insert(key(10, -2, 2), 1);
    assert!(covered(&res, &w, key(11, -3, 5)));
    assert!(!covered(&res, &w, key(11, 3, 5)));
    // children of (11, 3, 5): (12, 6..=7, 10..=11)
    let mut res: KeyMap<u64> = KeyMap::new();
    res.insert(key(12, 6, 10), 1);
    res.insert(key(12, 7, 10), 1);
    res.insert(key(12, 6, 11), 1);
    assert!(!covered(&res, &w, key(11, 3, 5)));
    res.insert(key(12, 7, 11), 1);
    assert!(covered(&res, &w, key(11, 3, 5)));
    // grandparent of (11, -3, 5) is (9, -1, 1)
    let mut res: KeyMap<u64> = KeyMap::new();
    res.insert(key(9, -1, 1), 1);
    assert!(covered(&res, &w, key(11, -3, 5)));
    // a base tile has no parent level to be covered by
    assert!(!covered(&res, &w, key(9, -1, 2)));
    // all sixteen grandchildren of (10, 1, 1)
    let mut res: KeyMap<u64> = KeyMap::new();
    for ox in 0..4 {
        for oz in 0..4 {
            if (ox, oz) != (3, 3) {
                res.insert(key(12, 4 + ox, 4 + oz), 1);
            }
        }
    }
    assert!(!covered(&res, &w, key(10, 1, 1)));
    res.insert(key(12, 7, 7), 1);
    assert!(covered(&res, &w, key(10, 1, 1)));
    // children of a top-zoom tile are never consulted
    let mut res: KeyMap<u64> = KeyMap::new();
    for (x, z) in [(0, 0), (1, 0), (0, 1), (1, 1)] {
        res.insert(key(16, x, z), 1);
    }
    assert!(!covered(&res, &w, key(15, 0, 0)));
}

#[test]
fn reconcile_evicts_by_rule() {
    let w = world();
    let mut index = TileIndex::new();
    index.resident.insert(key(9, 0, 0), 100); // stale base tile
    index.resident.insert(key(10, 0, 0), 101); // dismissed (off screen)
    index.resident.insert(key(10, 2, 2), 102); // covered by its parent below
    index.resident.insert(key(9, 1, 1), 103); // desired parent
    index.resident.insert(key(10, 6, 6), 104); // visible, uncovered
    index.resident.insert(key(9, 5, 5), 105); // desired
    index.desired.insert(key(9, 1, 1));
    index.desired.insert(key(9, 5, 5));
    let mut dirty = CoverageDirty(true);
    let mut evicted = reconcile(&mut index, &mut dirty, &w, |k: TileKey, e: u64| {
        assert!(k != key(9, 0, 0));
        e == 101
    });
    evicted.sort();
    assert_eq!(evicted, vec![(key(9, 0, 0), 100), (key(10, 0, 0), 101), (key(10, 2, 2), 102)]);
    assert!(!dirty.0);
    assert_eq!(index.resident.len(), 3);
    assert!(index.resident.contains_key(&key(10, 6, 6)));
    // with coverage clean, a covered tile is kept
    index.resident.insert(key(10, 3, 3), 106);
    let evicted = reconcile(&mut index, &mut dirty, &w, |_k: TileKey, _e: u64| false);
    assert!(evicted.is_empty());
    assert!(index.resident.contains_key(&key(10, 3, 3)));
}

#[test]
fn drops_release_loading_and_cancelled_wanted_tiles_come_back() {
    let w = world();
    let mut index = TileIndex::new();
    index.desired.insert(key(10, 1, 1));
    index.loading.insert(key(10, 1, 1));
    index.loading.insert(key(10, 2, 2));
    let again = handle_drop(&mut index, &w, &TileDrop::Cancelled(key(10, 1, 1)));
    assert_eq!(again, Some(TileRequest { key: key(10, 1, 1), x: 1 + 612, z: 1 + 414 }));
    assert!(index.loading.contains(&key(10, 1, 1)));
    let none = handle_drop(&mut index, &w, &TileDrop::Cancelled(key(10, 2, 2)));
    assert_eq!(none, None);
    assert!(!index.loading.contains(&key(10, 2, 2)));
    let failed = handle_drop(&mut index, &w, &TileDrop::Failed(key(10, 1, 1), String::from("GET x: HTTP 404")));
    assert_eq!(failed, None);
    assert!(index.loading.is_empty());
    // a cancelled tile that already became resident is not requested again
    index.resident.insert(key(10, 1, 1), 7);
    index.loading.insert(key(10, 1, 1));
    assert_eq!(handle_drop(&mut index, &w, &TileDrop::Cancelled(key(10, 1, 1))), None);
}

#[test]
fn promote_only_wanted_tiles() {
    let mut index = TileIndex::new();
    let mut dirty = CoverageDirty(false);
    index.desired.insert(key(10, 1, 1));
    index.loading.insert(key(10, 1, 1));
    index.loading.insert(key(10, 9, 9));
    let mut spawned = Vec::new();
    let mut spawn = |k: TileKey, p: u64| {
        spawned.push(k);
        p
    };
    let e = promote_one(&mut index, &mut dirty, key(10, 1, 1), 42, &mut spawn);
    assert_eq!(e, Some(42));
    assert!(dirty.0);
    assert_eq!(index.resident.get(&key(10, 1, 1)), Some(&42));
    assert!(!index.loading.contains(&key(10, 1, 1)));
    // already resident: dropped, spawn not called
    let e = promote_one(&mut index, &mut dirty, key(10, 1, 1), 43, &mut spawn);
    assert_eq!(e, None);
    // not desired: dropped
    dirty.0 = false;
    let e = promote_one(&mut index, &mut dirty, key(10, 9, 9), 44, &mut spawn);
    assert_eq!(e, None);
    assert!(!dirty.0);
    assert!(index.loading.is_empty());
    assert_eq!(spawned, vec![key(10, 1, 1)]);
}

#[test]
fn promote_frame_settles_drops_and_respects_budget() {
    let w = world();
    let mut index = TileIndex::new();
    let mut dirty = CoverageDirty(false);
    for k in [key(10, 1, 1), key(10, 2, 2), key(10, 3, 3), key(10, 4, 4)] {
        index.desired.insert(k);
        index.loading.insert(k);
    }
    index.loading.insert(key(10, 8, 8));
    index.resident.insert(key(9, 0, 0), 900);
    let drops = vec![
        TileDrop::Cancelled(key(10, 4, 4)),                 // wanted: requested again
        TileDrop::Failed(key(10, 3, 3), String::from("x")), // waits
        TileDrop::Cancelled(key(10, 8, 8)),                 // not wanted
    ];
    let mut pending: VecDeque<(TileKey, u64)> = VecDeque::new();
    pending.push_back((key(10, 9, 9), 99)); // no longer wanted
    let ready = vec![(key(10, 1, 1), 11), (key(10, 1, 1), 12), (key(10, 2, 2), 22)];
    let mut spawned = Vec::new();
    let mut spawn = |k: TileKey, p: u64| {
        spawned.push(k);
        p
    };
    let requests = promote(&mut index, &mut dirty, &w, &drops, ready, &mut pending, 3, &mut spawn);
    assert_eq!(requests, vec![TileRequest { key: key(10, 4, 4), x: 4 + 612, z: 4 + 414 }]);
    // budget 3: (10,9,9) dropped, (10,1,1) promoted, its duplicate dropped
    assert_eq!(spawned, vec![key(10, 1, 1)]);
    assert_eq!(pending.len(), 1);
    assert_eq!(pending[0], (key(10, 2, 2), 22));
    assert!(dirty.0);
    assert_eq!(index.resident.get(&key(10, 1, 1)), Some(&11));
    assert_eq!(index.resident.get(&key(9, 0, 0)), Some(&900));
    let mut loading = index.loading.to_vec();
    loading.sort();
    assert_eq!(loading, vec![key(10, 2, 2), key(10, 4, 4)]);
    // next frame promotes the rest
    let mut spawn_next = |_k: TileKey, p: u64| p;
    let requests = promote(&mut index, &mut dirty, &w, &vec![], vec![], &mut pending, 3, &mut spawn_next);
    assert!(requests.is_empty());
    assert!(pending.is_empty());
    assert_eq!(index.resident.get(&key(10, 2, 2)), Some(&22));
}

#[test]
fn update_desired_cancels_stale_and_requests_missing() {
    let w = world();
    let mut index = TileIndex::new();
    let mut dirty = CoverageDirty(false);
    index.resident.insert(key(9, 0, 0), 1);
    index.loading.insert(key(9, 1, 0)); // still wanted
    index.loading.insert(key(9, 7, 7)); // stale
    let keys = vec![key(9, 0, 0), key(9, 1, 0), key(9, 2, 0), key(10, 0, 0)];
    let (cancels, mut requests) = update_desired(&mut index, &mut dirty, &w, &keys);
    assert!(dirty.0);
    assert_eq!(cancels, vec![key(9, 7, 7)]);
    requests.sort_by_key(|r| r.key);
    assert_eq!(
        requests,
        vec![
            TileRequest { key: key(9, 2, 0), x: 308, z: 207 },
            TileRequest { key: key(10, 0, 0), x: 612, z: 414 },
        ]
    );
    assert_eq!(index.desired.len(), 4);
    assert!(index.loading.contains(&key(9, 2, 0)));
    assert!(index.loading.contains(&key(9, 7, 7)));
}

#[test]
fn status_flips_once_desired_set_is_serviced() {
    let mut index = TileIndex::new();
    let mut st = TerrainStatus::default();
    assert!(st.loading);
    // no desired set yet: still loading, progress zero
    status(&mut st, &index, true);
    assert!(st.loading);
    assert_eq!((st.serviced, st.desired), (0, 0));
    index.desired.insert(key(9, 0, 0));
    index.desired.insert(key(9, 1, 0));
    index.resident.insert(key(9, 0, 0), 1);
    index.resident.insert(key(9, 5, 5), 2);
    index.loading.insert(key(9, 1, 0));
    status(&mut st, &index, true);
    assert!(st.loading);
    assert_eq!((st.serviced, st.desired, st.resident), (1, 2, 2));
    index.loading.remove(&key(9, 1, 0));
    status(&mut st, &index, false);
    assert!(st.loading);
    index.resident.insert(key(9, 1, 0), 3);
    status(&mut st, &index, true);
    assert!(!st.loading);
    assert_eq!((st.serviced, st.desired, st.resident), (2, 2, 3));
    // never flips back
    index.loading.insert(key(9, 9, 9));
    status(&mut st, &index, false);
    assert!(!st.loading);
}

#[test]
fn mesh_resolution_doubles_up_to_256() {
    let w = WorldConfig { anchor_x: 0, anchor_z: 0, base_zoom: 9, max_zoom: 17 };
    assert_eq!(mesh_resolutions(&w), vec![4, 8, 16, 32, 64, 128, 256, 256, 256]);
    let w = WorldConfig { anchor_x: 0, anchor_z: 0, base_zoom: 12, max_zoom: 12 };
    assert_eq!(mesh_resolutions(&w), vec![4]);
}

#[test]
fn rgb_expands_with_opaque_alpha() {
    let rgb = [1u8, 2, 3, 4, 5, 6, 99];
    assert_eq!(rgb_to_rgba(2, 1, &rgb), vec![1, 2, 3, 255, 4, 5, 6, 255]);
    assert_eq!(rgb_to_rgba(0, 5, &rgb), Vec::<u8>::new());
}

#[test]
fn world_defaults_and_range() {
    let w = WorldConfig::default();
    assert_eq!(w, WorldConfig { anchor_x: 306, anchor_z: 207, base_zoom: 9, max_zoom: 15 });
    assert!(w.supported());
    assert_eq!(w.levels(), 7);
    assert!(!WorldConfig { anchor_x: 0, anchor_z: 0, base_zoom: 8, max_zoom: 15 }.supported());
    assert!(!WorldConfig { anchor_x: 0, anchor_z: 0, base_zoom: 12, max_zoom: 11 }.supported());
    assert!(!WorldConfig { anchor_x: 0, anchor_z: 0, base_zoom: 9, max_zoom: 23 }.supported());
}

#[test]
fn promotion_that_creates_cover_sets_the_flag() {
    let w = world();
    let mut index = TileIndex::new();
    index.resident.insert(key(10, 4, 4), 200); // visible, not desired
    let mut dirty = CoverageDirty(true);
    let evicted = reconcile(&mut index, &mut dirty, &w, |_k: TileKey, _e: u64| false);
    assert!(evicted.is_empty());
    assert!(!dirty.0);
    // the parent arrives: the flag goes up, and the next pass evicts the child
    index.desired.insert(key(9, 2, 2));
    let mut spawn = |_k: TileKey, p: u64| p;
    assert_eq!(promote_one(&mut index, &mut dirty, key(9, 2, 2), 201, &mut spawn), Some(201));
    assert!(dirty.0);
    let evicted = reconcile(&mut index, &mut dirty, &w, |_k: TileKey, _e: u64| false);
    assert_eq!(evicted, vec![(key(10, 4, 4), 200)]);
    assert!(!dirty.0);
    assert_eq!(index.resident.len(), 1);
}

#[test]
fn key_map_tells_neighbouring_keys_apart() {
    let mut m: KeyMap<u64> = KeyMap::new();
    m.insert(key(10, -1, 0), 1);
    m.insert(key(10, 0, -1), 2);
    m.insert(key(11, -1, 0), 3);
    m.insert(key(10, i32::MIN, i32::MAX), 4);
    m.insert(key(10, i32::MAX, i32::MIN), 5);
    assert_eq!(m.len(), 5);
    assert_eq!(m.get(&key(10, -1, 0)), Some(&1));
    assert_eq!(m.get(&key(10, 0, -1)), Some(&2));
    assert_eq!(m.get(&key(11, -1, 0)), Some(&3));
    assert_eq!(m.get(&key(10, i32::MIN, i32::MAX)), Some(&4));
    assert_eq!(m.get(&key(10, i32::MAX, i32::MIN)), Some(&5));
    assert_eq!(m.remove(&key(10, 0, -1)), Some(2));
    assert!(!m.contains_key(&key(10, 0, -1)));
    let mut ks = m.keys();
    ks.sort();
    assert_eq!(ks, vec![key(10, i32::MIN, i32::MAX), key(10, -1, 0), key(10, i32::MAX, i32::MIN), key(11, -1, 0)]);
}
