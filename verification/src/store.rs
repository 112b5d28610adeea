//! The tile store's bookkeeping: which tiles are resident (with the handle
//! of the entity that draws each), which are desired, which are loading,
//! and the per-frame steps that move tiles between these states
//! (reconcile → promote → update_desired → status). The engine glue spawns
//! and despawns the entities and forwards requests to the tile source.

use vstd::prelude::*;
use crate::config::{TerrainStatus, WorldConfig, ZOOM_LEVELS};
use crate::keys::{KeyMap, TileSet};
use crate::lod::{span, TileKey};
use crate::source::{TileDrop, TileRequest};
use std::collections::VecDeque;

verus! {

/// Resident, desired and loading tiles. A resident tile maps to the bits of
/// the entity that draws it.
pub struct TileIndex {
    /// Tiles on screen (or kept to avoid holes), with their entity.
    pub resident: KeyMap<u64>,
    /// The current desired set.
    pub desired: TileSet,
    /// Tiles requested from the source and not yet answered.
    pub loading: TileSet,
}

impl TileIndex {
    /// Nothing resident, desired or loading.
    pub fn new() -> (i: Self)
        ensures
            i.resident@ == Map::<TileKey, u64>::empty(),
            i.desired@ == Set::<TileKey>::empty(),
            i.loading@ == Set::<TileKey>::empty(),
    {
        TileIndex { resident: KeyMap::new(), desired: TileSet::new(), loading: TileSet::new() }
    }
}

impl Default for TileIndex {
    fn default() -> (i: Self)
        ensures
            i.resident@ == Map::<TileKey, u64>::empty(),
            i.desired@ == Set::<TileKey>::empty(),
            i.loading@ == Set::<TileKey>::empty(),
    {
        TileIndex::new()
    }
}

/// Coverage relations only change on promotion / desired rebuilds; the
/// covered-by eviction checks are skipped while this is clear. Exact, not a
/// heuristic: evictions only remove cover.
#[derive(Clone, Copy, Debug, PartialEq, Eq, Structural)]
pub struct CoverageDirty(pub bool);

impl Default for CoverageDirty {
    fn default() -> (c: Self)
        ensures
            c == CoverageDirty(true),
    {
        CoverageDirty(true)
    }
}

// ---------------------------------------------------------------------------
// anchoring

/// Provider column of `key`: the anchor scaled to `key.zoom`, plus the key.
pub open spec fn absolute_x(world: WorldConfig, key: TileKey) -> int {
    key.x + world.anchor_x * span(1, (key.zoom - world.base_zoom) as nat)
}

/// Provider row of `key`.
pub open spec fn absolute_z(world: WorldConfig, key: TileKey) -> int {
    key.z + world.anchor_z * span(1, (key.zoom - world.base_zoom) as nat)
}

/// `v` is an `i32` value.
pub open spec fn in_i32(v: int) -> bool {
    i32::MIN <= v <= i32::MAX
}

/// The provider coordinates of `key` can be computed in `i32`.
pub open spec fn request_fits(world: WorldConfig, key: TileKey) -> bool {
    &&& world.base_zoom <= key.zoom
    &&& key.zoom - world.base_zoom < 31
    &&& in_i32(world.anchor_x * span(1, (key.zoom - world.base_zoom) as nat))
    &&& in_i32(world.anchor_z * span(1, (key.zoom - world.base_zoom) as nat))
    &&& in_i32(absolute_x(world, key))
    &&& in_i32(absolute_z(world, key))
}

/// The fetch request for `key`.
pub open spec fn request_for(world: WorldConfig, key: TileKey) -> TileRequest {
    TileRequest { key, x: absolute_x(world, key) as i32, z: absolute_z(world, key) as i32 }
}

proof fn lemma_span_one_monotone(i: nat, j: nat)
    requires
        i <= j,
    ensures
        1 <= span(1, i) <= span(1, j),
    decreases j,
{
    if j > i {
        lemma_span_one_monotone(i, (j - 1) as nat);
    } else if i > 0 {
        lemma_span_one_monotone((i - 1) as nat, (i - 1) as nat);
    }
}

/// `2^n`.
fn zoom_scale(n: u8) -> (s: i32)
    requires
        n < 31,
    ensures
        s == span(1, n as nat),
{
    proof {
        reveal_with_fuel(span, 31);
        assert(span(1, 30) == 0x4000_0000);
    }
    let mut s: i32 = 1;
    let mut i: u8 = 0;
    while i < n
        invariant
            i <= n < 31,
            s == span(1, i as nat),
            span(1, 30) == 0x4000_0000,
        decreases n - i,
    {
        proof {
            lemma_span_one_monotone(i as nat, 29);
            reveal_with_fuel(span, 31);
            assert(span(1, 30) == 2 * span(1, 29));
        }
        s = s * 2;
        i = i + 1;
    }
    s
}

/// Whether the provider coordinates of `key` can be computed (see
/// [`request_fits`]).
pub fn request_in_range(world: &WorldConfig, key: TileKey) -> (b: bool)
    ensures
        b == request_fits(*world, key),
{
    if key.zoom < world.base_zoom || key.zoom - world.base_zoom >= 31 {
        return false;
    }
    let scale = zoom_scale(key.zoom - world.base_zoom) as i64;
    proof {
        lemma_span_one_monotone((key.zoom - world.base_zoom) as nat, 30);
        reveal_with_fuel(span, 31);
        assert(span(1, 30) == 0x4000_0000);
        assert(-0x8000_0000 * 0x4000_0000 <= world.anchor_x * scale <= 0x8000_0000 * 0x4000_0000) by (nonlinear_arith)
            requires
                -0x8000_0000 <= world.anchor_x < 0x8000_0000,
                1 <= scale <= 0x4000_0000,
        ;
        assert(-0x8000_0000 * 0x4000_0000 <= world.anchor_z * scale <= 0x8000_0000 * 0x4000_0000) by (nonlinear_arith)
            requires
                -0x8000_0000 <= world.anchor_z < 0x8000_0000,
                1 <= scale <= 0x4000_0000,
        ;
    }
    let ax = world.anchor_x as i64 * scale;
    let az = world.anchor_z as i64 * scale;
    let x = key.x as i64 + ax;
    let z = key.z as i64 + az;
    let lo = i32::MIN as i64;
    let hi = i32::MAX as i64;
    lo <= ax && ax <= hi && lo <= az && az <= hi && lo <= x && x <= hi && lo <= z && z <= hi
}

/// `span(1, n)` is `2^n`.
proof fn lemma_span_is_pow2(n: nat)
    ensures
        span(1, n) == vstd::arithmetic::power2::pow2(n),
    decreases n,
{
    if n == 0 {
        vstd::arithmetic::power::lemma_pow0(2);
    } else {
        lemma_span_is_pow2((n - 1) as nat);
        vstd::arithmetic::power2::lemma_pow2_unfold(n);
    }
}

/// The provider coordinates of a request are the key's coordinates plus
/// the anchor (given in base-zoom tiles) scaled by `2^(zoom − base_zoom)`:
/// a key at the world's base zoom is offset by exactly the anchor, and each
/// level deeper doubles the offset.
pub proof fn request_offsets_by_scaled_anchor(world: WorldConfig, key: TileKey)
    requires
        world.base_zoom <= key.zoom,
        in_i32(key.x + world.anchor_x * vstd::arithmetic::power2::pow2((key.zoom - world.base_zoom) as nat)),
        in_i32(key.z + world.anchor_z * vstd::arithmetic::power2::pow2((key.zoom - world.base_zoom) as nat)),
    ensures
        request_for(world, key).key == key,
        request_for(world, key).x == key.x + world.anchor_x * vstd::arithmetic::power2::pow2(
            (key.zoom - world.base_zoom) as nat,
        ),
        request_for(world, key).z == key.z + world.anchor_z * vstd::arithmetic::power2::pow2(
            (key.zoom - world.base_zoom) as nat,
        ),
        key.zoom == world.base_zoom ==> request_for(world, key).x == key.x + world.anchor_x
            && request_for(world, key).z == key.z + world.anchor_z,
        key.zoom == world.base_zoom + 1 ==> request_for(world, key).x == key.x + 2 * world.anchor_x
            && request_for(world, key).z == key.z + 2 * world.anchor_z,
{
    let d = (key.zoom - world.base_zoom) as nat;
    lemma_span_is_pow2(d);
    vstd::arithmetic::power::lemma_pow0(2);
    assert(vstd::arithmetic::power2::pow2(0) == 1);
    vstd::arithmetic::power2::lemma_pow2_unfold(1);
    assert(vstd::arithmetic::power2::pow2(1) == 2);
    if d == 0 {
        let p = vstd::arithmetic::power2::pow2(d);
        assert(p == 1);
        assert(world.anchor_x * p == world.anchor_x && world.anchor_z * p == world.anchor_z) by (nonlinear_arith)
            requires
                p == 1,
        ;
    }
    if d == 1 {
        let p = vstd::arithmetic::power2::pow2(d);
        assert(p == 2);
        assert(world.anchor_x * p == 2 * world.anchor_x) by (nonlinear_arith)
            requires
                p == 2,
        ;
        assert(world.anchor_z * p == 2 * world.anchor_z) by (nonlinear_arith)
            requires
                p == 2,
        ;
    }
}

/// Records `key` as loading and returns the request that fetches it, with
/// the anchor resolved: `x = key.x + anchor_x · 2^(key.zoom − base_zoom)`,
/// likewise `z`.
pub fn request_tile(index: &mut TileIndex, world: &WorldConfig, key: TileKey) -> (req: TileRequest)
    requires
        request_fits(*world, key),
    ensures
        req == request_for(*world, key),
        final(index).loading@ == old(index).loading@.insert(key),
        final(index).resident@ == old(index).resident@,
        final(index).desired@ == old(index).desired@,
{
    let scale = zoom_scale(key.zoom - world.base_zoom);
    let req = TileRequest { key, x: key.x + world.anchor_x * scale, z: key.z + world.anchor_z * scale };
    index.loading.insert(key);
    req
}

// ---------------------------------------------------------------------------
// coverage

/// `res` holds the tile `(zoom, x, z)`.
pub open spec fn has_tile(res: Map<TileKey, u64>, zoom: int, x: int, z: int) -> bool {
    res.contains_key(TileKey { zoom: zoom as u8, x: x as i32, z: z as i32 })
}

/// All four children of `key` are in `res`.
pub open spec fn children_resident(res: Map<TileKey, u64>, key: TileKey) -> bool {
    &&& has_tile(res, key.zoom + 1, 2 * key.x, 2 * key.z)
    &&& has_tile(res, key.zoom + 1, 2 * key.x + 1, 2 * key.z)
    &&& has_tile(res, key.zoom + 1, 2 * key.x, 2 * key.z + 1)
    &&& has_tile(res, key.zoom + 1, 2 * key.x + 1, 2 * key.z + 1)
}

/// All sixteen grandchildren of `key` are in `res`.
pub open spec fn grandchildren_resident(res: Map<TileKey, u64>, key: TileKey) -> bool {
    forall|ox: int, oz: int|
        0 <= ox < 4 && 0 <= oz < 4 ==> #[trigger] has_tile(res, key.zoom + 2, 4 * key.x + ox, 4 * key.z + oz)
}

/// The area of `key` is drawn by resident tiles of a neighbouring level:
/// its parent, all four children, its grandparent, or all sixteen
/// grandchildren (levels stay within the world's zoom range).
pub open spec fn covered_by(res: Map<TileKey, u64>, world: WorldConfig, key: TileKey) -> bool {
    ||| key.zoom > world.base_zoom && has_tile(res, key.zoom - 1, key.x / 2, key.z / 2)
    ||| key.zoom < world.max_zoom && children_resident(res, key)
    ||| key.zoom > world.base_zoom + 1 && has_tile(res, key.zoom - 2, key.x / 4, key.z / 4)
    ||| key.zoom + 1 < world.max_zoom && grandchildren_resident(res, key)
}

/// The descendant coordinates `covered` inspects for `key` fit `i32`.
pub open spec fn cover_fits(world: WorldConfig, key: TileKey) -> bool {
    &&& key.zoom < 255
    &&& key.zoom < world.max_zoom ==> -0x4000_0000 <= key.x < 0x4000_0000 && -0x4000_0000 <= key.z
        < 0x4000_0000
    &&& key.zoom + 1 < world.max_zoom ==> -0x2000_0000 <= key.x < 0x2000_0000 && -0x2000_0000
        <= key.z < 0x2000_0000
}

/// Whether [`covered`] can inspect `key`'s neighbours (see [`cover_fits`]).
pub fn coverable(world: &WorldConfig, key: TileKey) -> (b: bool)
    ensures
        b == cover_fits(*world, key),
{
    if key.zoom == 255 {
        return false;
    }
    let child_ok = key.zoom >= world.max_zoom || (-0x4000_0000 <= key.x && key.x < 0x4000_0000
        && -0x4000_0000 <= key.z && key.z < 0x4000_0000);
    let grandchild_ok = key.zoom + 1 >= world.max_zoom || (-0x2000_0000 <= key.x && key.x < 0x2000_0000
        && -0x2000_0000 <= key.z && key.z < 0x2000_0000);
    child_ok && grandchild_ok
}

/// Children cover a tile only when all four are resident: if only tiles
/// one level below `key` are resident and its child at offset `(ox, oz)`
/// is missing, `key` is not covered; if all four children are resident
/// (below the world's top zoom), it is.
pub proof fn children_cover_only_when_all_four(
    res: Map<TileKey, u64>,
    world: WorldConfig,
    key: TileKey,
    ox: int,
    oz: int,
)
    requires
        key.zoom < 255,
        -0x4000_0000 <= key.x < 0x4000_0000,
        -0x4000_0000 <= key.z < 0x4000_0000,
        0 <= ox < 2,
        0 <= oz < 2,
        forall|k: TileKey| #[trigger] res.contains_key(k) ==> k.zoom == key.zoom + 1,
    ensures
        !res.contains_key(TileKey { zoom: (key.zoom + 1) as u8, x: (2 * key.x + ox) as i32, z: (2 * key.z + oz) as i32 })
            ==> !covered_by(res, world, key),
        key.zoom < world.max_zoom && (forall|a: int, b: int|
            0 <= a < 2 && 0 <= b < 2 ==> #[trigger] res.contains_key(
                TileKey { zoom: (key.zoom + 1) as u8, x: (2 * key.x + a) as i32, z: (2 * key.z + b) as i32 },
            )) ==> covered_by(res, world, key),
{
    let child = TileKey { zoom: (key.zoom + 1) as u8, x: (2 * key.x + ox) as i32, z: (2 * key.z + oz) as i32 };
    if !res.contains_key(child) {
        if key.zoom + 1 < world.max_zoom && grandchildren_resident(res, key) {
            assert(has_tile(res, key.zoom + 2, 4 * key.x + 0, 4 * key.z + 0));
        }
        assert(!children_resident(res, key)) by {
            if ox == 0 && oz == 0 {
                assert(!has_tile(res, key.zoom + 1, 2 * key.x, 2 * key.z));
            } else if ox == 1 && oz == 0 {
                assert(!has_tile(res, key.zoom + 1, 2 * key.x + 1, 2 * key.z));
            } else if ox == 0 && oz == 1 {
                assert(!has_tile(res, key.zoom + 1, 2 * key.x, 2 * key.z + 1));
            } else {
                assert(!has_tile(res, key.zoom + 1, 2 * key.x + 1, 2 * key.z + 1));
            }
        }
    }
    if key.zoom < world.max_zoom && (forall|a: int, b: int|
        0 <= a < 2 && 0 <= b < 2 ==> #[trigger] res.contains_key(
            TileKey { zoom: (key.zoom + 1) as u8, x: (2 * key.x + a) as i32, z: (2 * key.z + b) as i32 },
        )) {
        assert(res.contains_key(TileKey { zoom: (key.zoom + 1) as u8, x: (2 * key.x + 0) as i32, z: (2 * key.z + 0) as i32 }));
        assert(res.contains_key(TileKey { zoom: (key.zoom + 1) as u8, x: (2 * key.x + 1) as i32, z: (2 * key.z + 0) as i32 }));
        assert(res.contains_key(TileKey { zoom: (key.zoom + 1) as u8, x: (2 * key.x + 0) as i32, z: (2 * key.z + 1) as i32 }));
        assert(res.contains_key(TileKey { zoom: (key.zoom + 1) as u8, x: (2 * key.x + 1) as i32, z: (2 * key.z + 1) as i32 }));
        assert(children_resident(res, key));
    }
}

/// Which neighbours cover a tile: a resident parent (the tile one level up
/// whose area contains `key`) or grandparent does, above the base zoom; so
/// do all sixteen grandchildren, two levels below the world's top zoom.
/// With no resident tile one or two levels away, nothing covers it.
pub proof fn cover_by_ancestors_and_grandchildren(res: Map<TileKey, u64>, world: WorldConfig, key: TileKey, up: TileKey)
    requires
        key.zoom < 255,
        -0x2000_0000 <= key.x < 0x2000_0000,
        -0x2000_0000 <= key.z < 0x2000_0000,
    ensures
        res.contains_key(up) && key.zoom > world.base_zoom && up.zoom + 1 == key.zoom && 2 * up.x <= key.x
            <= 2 * up.x + 1 && 2 * up.z <= key.z <= 2 * up.z + 1 ==> covered_by(res, world, key),
        res.contains_key(up) && key.zoom > world.base_zoom + 1 && up.zoom + 2 == key.zoom && 4 * up.x <= key.x
            <= 4 * up.x + 3 && 4 * up.z <= key.z <= 4 * up.z + 3 ==> covered_by(res, world, key),
        key.zoom + 1 < world.max_zoom && (forall|a: int, b: int|
            0 <= a < 4 && 0 <= b < 4 ==> #[trigger] res.contains_key(
                TileKey { zoom: (key.zoom + 2) as u8, x: (4 * key.x + a) as i32, z: (4 * key.z + b) as i32 },
            )) ==> covered_by(res, world, key),
        (forall|k: TileKey|
            #[trigger] res.contains_key(k) ==> k.zoom != key.zoom - 1 && k.zoom != key.zoom - 2 && k.zoom
                != key.zoom + 1 && k.zoom != key.zoom + 2) ==> !covered_by(res, world, key),
{
    if res.contains_key(up) && key.zoom > world.base_zoom && up.zoom + 1 == key.zoom && 2 * up.x <= key.x
        <= 2 * up.x + 1 && 2 * up.z <= key.z <= 2 * up.z + 1 {
        assert(up == TileKey { zoom: (key.zoom - 1) as u8, x: (key.x / 2) as i32, z: (key.z / 2) as i32 });
    }
    if res.contains_key(up) && key.zoom > world.base_zoom + 1 && up.zoom + 2 == key.zoom && 4 * up.x <= key.x
        <= 4 * up.x + 3 && 4 * up.z <= key.z <= 4 * up.z + 3 {
        assert(up == TileKey { zoom: (key.zoom - 2) as u8, x: (key.x / 4) as i32, z: (key.z / 4) as i32 });
    }
    if key.zoom + 1 < world.max_zoom && (forall|a: int, b: int|
        0 <= a < 4 && 0 <= b < 4 ==> #[trigger] res.contains_key(
            TileKey { zoom: (key.zoom + 2) as u8, x: (4 * key.x + a) as i32, z: (4 * key.z + b) as i32 },
        )) {
        assert forall|ox: int, oz: int| 0 <= ox < 4 && 0 <= oz < 4 implies #[trigger] has_tile(
            res,
            key.zoom + 2,
            4 * key.x + ox,
            4 * key.z + oz,
        ) by {
            assert(res.contains_key(
                TileKey { zoom: (key.zoom + 2) as u8, x: (4 * key.x + ox) as i32, z: (4 * key.z + oz) as i32 },
            ));
        }
    }
    if forall|k: TileKey|
        #[trigger] res.contains_key(k) ==> k.zoom != key.zoom - 1 && k.zoom != key.zoom - 2 && k.zoom != key.zoom
            + 1 && k.zoom != key.zoom + 2 {
        if key.zoom + 1 < world.max_zoom && grandchildren_resident(res, key) {
            assert(has_tile(res, key.zoom + 2, 4 * key.x + 0, 4 * key.z + 0));
        }
        if key.zoom < world.max_zoom && children_resident(res, key) {
            assert(has_tile(res, key.zoom + 1, 2 * key.x, 2 * key.z));
        }
    }
}

/// Whether the resident set covers `key`'s area without it (see
/// [`covered_by`]).
pub fn covered(resident: &KeyMap<u64>, world: &WorldConfig, key: TileKey) -> (b: bool)
    requires
        world.valid(),
        cover_fits(*world, key),
    ensures
        b == covered_by(resident@, *world, key),
{
    if key.zoom > world.base_zoom {
        let parent = TileKey { zoom: key.zoom - 1, x: crate::lod::halve(key.x), z: crate::lod::halve(key.z) };
        if resident.contains_key(&parent) {
            return true;
        }
    }
    if key.zoom < world.max_zoom {
        let zoom = key.zoom + 1;
        let cx = key.x * 2;
        let cz = key.z * 2;
        if resident.contains_key(&TileKey { zoom, x: cx, z: cz }) && resident.contains_key(
            &TileKey { zoom, x: cx + 1, z: cz },
        ) && resident.contains_key(&TileKey { zoom, x: cx, z: cz + 1 }) && resident.contains_key(
            &TileKey { zoom, x: cx + 1, z: cz + 1 },
        ) {
            return true;
        }
    }
    if key.zoom > world.base_zoom + 1 {
        let grandparent = TileKey { zoom: key.zoom - 2, x: crate::lod::quarter(key.x), z: crate::lod::quarter(key.z) };
        if resident.contains_key(&grandparent) {
            return true;
        }
    }
    if key.zoom + 1 < world.max_zoom {
        let zoom = key.zoom + 2;
        let cx = key.x * 4;
        let cz = key.z * 4;
        let mut ox: i32 = 0;
        while ox < 4
            invariant
                0 <= ox <= 4,
                !(key.zoom > world.base_zoom && has_tile(resident@, key.zoom - 1, key.x / 2, key.z / 2)),
                !(key.zoom < world.max_zoom && children_resident(resident@, key)),
                !(key.zoom > world.base_zoom + 1 && has_tile(resident@, key.zoom - 2, key.x / 4, key.z / 4)),
                key.zoom + 1 < world.max_zoom,
                zoom == key.zoom + 2,
                cx == 4 * key.x,
                cz == 4 * key.z,
                -0x8000_0000 <= cx && cx + 3 < 0x8000_0000,
                -0x8000_0000 <= cz && cz + 3 < 0x8000_0000,
                forall|px: int, pz: int|
                    0 <= px < ox && 0 <= pz < 4 ==> #[trigger] has_tile(resident@, key.zoom + 2, 4 * key.x + px, 4 * key.z + pz),
            decreases 4 - ox,
        {
            let mut oz: i32 = 0;
            while oz < 4
                invariant
                    0 <= ox < 4,
                    0 <= oz <= 4,
                    !(key.zoom > world.base_zoom && has_tile(resident@, key.zoom - 1, key.x / 2, key.z / 2)),
                    !(key.zoom < world.max_zoom && children_resident(resident@, key)),
                    !(key.zoom > world.base_zoom + 1 && has_tile(resident@, key.zoom - 2, key.x / 4, key.z / 4)),
                    key.zoom + 1 < world.max_zoom,

                    zoom == key.zoom + 2,
                    cx == 4 * key.x,
                    cz == 4 * key.z,
                    -0x8000_0000 <= cx && cx + 3 < 0x8000_0000,
                    -0x8000_0000 <= cz && cz + 3 < 0x8000_0000,
                    forall|px: int, pz: int|
                        (0 <= px < ox && 0 <= pz < 4) || (px == ox && 0 <= pz < oz) ==> #[trigger] has_tile(resident@, key.zoom + 2, 4 * key.x + px, 4 * key.z + pz),
                decreases 4 - oz,
            {
                if !resident.contains_key(&TileKey { zoom, x: cx + ox, z: cz + oz }) {
                    assert(!has_tile(resident@, key.zoom + 2, 4 * key.x + ox, 4 * key.z + oz));
                    return false;
                }
                oz = oz + 1;
            }
            ox = ox + 1;
        }
        return true;
    }
    false
}

/// No resident tile outside the desired set (above the base zoom) is
/// covered by the other resident tiles. This holds whenever the coverage
/// flag is clean: `reconcile` establishes it when it clears the flag, and
/// every step that could break it (a promotion, a new desired set) sets
/// the flag.
pub open spec fn cover_settled(res: Map<TileKey, u64>, desired: Set<TileKey>, world: WorldConfig) -> bool {
    forall|k: TileKey|
        #[trigger] res.contains_key(k) && !desired.contains(k) && k.zoom != world.base_zoom
            ==> !covered_by(res, world, k)
}

/// A clean coverage flag changes no eviction: while the resident and
/// desired sets are settled, every candidate tile is evicted or kept
/// exactly as it would be with the flag forced on.
pub proof fn clean_flag_is_exact(
    res: Map<TileKey, u64>,
    desired: Set<TileKey>,
    world: WorldConfig,
    key: TileKey,
    dismissed: bool,
)
    requires
        cover_settled(res, desired, world),
        res.contains_key(key),
        !desired.contains(key),
    ensures
        evicts(world, res, false, key, dismissed) == evicts(world, res, true, key, dismissed),
{
}

/// The coverage flag is sound for a resident set, a desired set and a flag
/// value when the flag is set or the cover is settled. Every step keeps it:
/// [`reconcile`] settles the cover as it clears the flag; [`promote_one`],
/// [`promote`] and [`update_desired`] set the flag whenever the resident or
/// desired set changes; the other steps change neither set. Since a fresh
/// flag is set, it holds in every state, and with [`clean_flag_is_exact`] a
/// clean flag changes no eviction.
pub open spec fn flag_sound(res: Map<TileKey, u64>, desired: Set<TileKey>, dirty: bool, world: WorldConfig) -> bool {
    dirty || cover_settled(res, desired, world)
}

/// Cover only grows with the resident set.
proof fn lemma_cover_grows(small: Map<TileKey, u64>, big: Map<TileKey, u64>, world: WorldConfig, key: TileKey)
    requires
        small.dom().subset_of(big.dom()),
    ensures
        covered_by(small, world, key) ==> covered_by(big, world, key),
{
    if key.zoom + 1 < world.max_zoom && grandchildren_resident(small, key) {
        assert forall|ox: int, oz: int| 0 <= ox < 4 && 0 <= oz < 4 implies #[trigger] has_tile(
            big,
            key.zoom + 2,
            4 * key.x + ox,
            4 * key.z + oz,
        ) by {
            assert(has_tile(small, key.zoom + 2, 4 * key.x + ox, 4 * key.z + oz));
        }
    }
}

/// Whether the cover is settled depends only on which tiles are resident.
proof fn lemma_settled_by_dom(a: Map<TileKey, u64>, b: Map<TileKey, u64>, desired: Set<TileKey>, world: WorldConfig)
    requires
        a.dom() == b.dom(),
    ensures
        cover_settled(a, desired, world) == cover_settled(b, desired, world),
{
    assert forall|k: TileKey| covered_by(a, world, k) == covered_by(b, world, k) by {
        lemma_cover_grows(a, b, world, k);
        lemma_cover_grows(b, a, world, k);
    }
    if cover_settled(a, desired, world) {
        assert forall|k: TileKey|
            #[trigger] b.contains_key(k) && !desired.contains(k) && k.zoom != world.base_zoom
                implies !covered_by(b, world, k) by {
            assert(a.contains_key(k));
        }
    }
    if cover_settled(b, desired, world) {
        assert forall|k: TileKey|
            #[trigger] a.contains_key(k) && !desired.contains(k) && k.zoom != world.base_zoom
                implies !covered_by(a, world, k) by {
            assert(b.contains_key(k));
        }
    }
}

/// Evictions only remove cover: a tile not covered by a resident set is
/// still not covered once tiles leave the set. Skipping the covered-by
/// checks while nothing was promoted and the desired set did not change is
/// therefore exact.
pub proof fn eviction_removes_cover(
    res: Map<TileKey, u64>,
    gone: Set<TileKey>,
    world: WorldConfig,
    key: TileKey,
)
    ensures
        covered_by(res.remove_keys(gone), world, key) ==> covered_by(res, world, key),
{
    lemma_cover_grows(res.remove_keys(gone), res, world, key);
}

// ---------------------------------------------------------------------------
// reconcile

/// The keys of `ev`.
pub open spec fn keys_of(ev: Seq<(TileKey, u64)>) -> Set<TileKey> {
    ev.map_values(|p: (TileKey, u64)| p.0).to_set()
}

/// Eviction rule for a resident tile outside the desired set whose
/// visibility answer is `dismissed`: stale base tiles always go; so do
/// tiles off screen or beyond the horizon; the rest go only when coverage
/// may have changed and neighbouring levels cover their area.
pub open spec fn evicts(
    world: WorldConfig,
    res: Map<TileKey, u64>,
    dirty: bool,
    key: TileKey,
    dismissed: bool,
) -> bool {
    key.zoom == world.base_zoom || dismissed || (dirty && covered_by(res, world, key))
}

/// Evicts resident tiles that are no longer needed and returns them with
/// their entity, each once, for the caller to despawn. A resident tile that
/// is not desired is evicted by [`evicts`], where `dismissed(key, entity)`
/// says whether it was off screen last frame or beyond the horizon (asked
/// only for tiles above the base zoom). Desired tiles stay. Clears the
/// coverage flag.
pub fn reconcile<F: Fn(TileKey, u64) -> bool>(
    index: &mut TileIndex,
    coverage_dirty: &mut CoverageDirty,
    world: &WorldConfig,
    dismissed: F,
) -> (evicted: Vec<(TileKey, u64)>)
    requires
        world.valid(),
        forall|k: TileKey, e: u64| call_requires(dismissed, (k, e)),
        forall|k: TileKey|
            #![trigger old(index).resident@.contains_key(k)]
            old(index).resident@.contains_key(k) && !old(index).desired@.contains(k) && k.zoom
                != world.base_zoom ==> cover_fits(*world, k),
    ensures
        final(index).desired@ == old(index).desired@,
        final(index).loading@ == old(index).loading@,
        final(coverage_dirty).0 == false,
        evicted@.map_values(|p: (TileKey, u64)| p.0).no_duplicates(),
        final(index).resident@ == old(index).resident@.remove_keys(keys_of(evicted@)),
        forall|i: int|
            0 <= i < evicted@.len() ==> {
                let (k, e) = #[trigger] evicted@[i];
                &&& old(index).resident@.contains_key(k)
                &&& old(index).resident@[k] == e
                &&& !old(index).desired@.contains(k)
                &&& evicts(
                    *world,
                    old(index).resident@,
                    old(coverage_dirty).0,
                    k,
                    call_ensures(dismissed, (k, e), true),
                )
            },
        forall|k: TileKey|
            #![trigger old(index).resident@.contains_key(k)]
            old(index).resident@.contains_key(k) && !keys_of(evicted@).contains(k) ==> (old(
                index,
            ).desired@.contains(k) || (!evicts(*world, old(index).resident@, old(coverage_dirty).0, k, false)
                && call_ensures(dismissed, (k, old(index).resident@[k]), false))),
        flag_sound(old(index).resident@, old(index).desired@, old(coverage_dirty).0, *world)
            ==> cover_settled(final(index).resident@, final(index).desired@, *world),
{
    let ghost res = index.resident@;
    let ghost desired = index.desired@;
    let dirty = coverage_dirty.0;
    let ks = index.resident.keys();
    let mut evicted: Vec<(TileKey, u64)> = Vec::new();
    let mut i: usize = 0;
    while i < ks.len()
        invariant
            index.resident@ == res,
            index.desired@ == desired,
            index.loading@ == old(index).loading@,
            dirty == old(coverage_dirty).0,
            world.valid(),
            forall|k: TileKey, e: u64| call_requires(dismissed, (k, e)),
            forall|k: TileKey|
                #![trigger res.contains_key(k)]
                res.contains_key(k) && !desired.contains(k) && k.zoom != world.base_zoom ==> cover_fits(*world, k),
            ks@.no_duplicates(),
            ks@.to_set() == res.dom(),
            i <= ks@.len(),
            evicted@.map_values(|p: (TileKey, u64)| p.0).no_duplicates(),
            forall|m: int|
                0 <= m < evicted@.len() ==> exists|j: int| 0 <= j < i && ks@[j] == (#[trigger] evicted@[m]).0,
            forall|m: int|
                0 <= m < evicted@.len() ==> {
                    let (k, e) = #[trigger] evicted@[m];
                    &&& res.contains_key(k)
                    &&& res[k] == e
                    &&& !desired.contains(k)
                    &&& (k.zoom == world.base_zoom || call_ensures(dismissed, (k, e), true) || (dirty
                        && covered_by(res, *world, k)))
                },
            forall|j: int|
                0 <= j < i && !keys_of(evicted@).contains(#[trigger] ks@[j]) ==> (desired.contains(ks@[j])
                    || (ks@[j].zoom != world.base_zoom && call_ensures(dismissed, (ks@[j], res[ks@[j]]), false)
                    && !(dirty && covered_by(res, *world, ks@[j])))),
        decreases ks@.len() - i,
    {
        let k = ks[i];
        proof {
            assert(ks@.to_set().contains(k));
        }
        if !index.desired.contains(&k) {
            let e = match index.resident.get(&k) {
                Some(e) => *e,
                None => 0,
            };
            let remove = if k.zoom == world.base_zoom {
                true
            } else if dismissed(k, e) {
                true
            } else if !dirty {
                false
            } else {
                covered(&index.resident, world, k)
            };
            if remove {
                let ghost before = evicted@;
                evicted.push((k, e));
                proof {
                    let names = evicted@.map_values(|p: (TileKey, u64)| p.0);
                    let old_names = before.map_values(|p: (TileKey, u64)| p.0);
                    assert(names =~= old_names.push(k));
                    assert forall|a: int, b: int| 0 <= a < names.len() && 0 <= b < names.len() && a != b
                        implies names[a] != names[b] by {
                        if a == names.len() - 1 || b == names.len() - 1 {
                            let m = if a == names.len() - 1 { b } else { a };
                            let j = choose|j: int| 0 <= j < i && ks@[j] == (#[trigger] before[m]).0;
                            assert(ks@[j] == names[m]);
                        }
                    }
                    assert forall|m: int| 0 <= m < evicted@.len() implies exists|j: int| 0 <= j < i + 1 && ks@[j]
                        == (#[trigger] evicted@[m]).0 by {
                        if m == evicted@.len() - 1 {
                            assert(ks@[i as int] == evicted@[m].0);
                        } else {
                            assert(evicted@[m] == before[m]);
                        }
                    }
                    assert(keys_of(evicted@) == keys_of(before).insert(k)) by {
                        old_names.lemma_push_to_set_commute(k);
                    }
                    assert forall|j: int| 0 <= j < i + 1 && !keys_of(evicted@).contains(#[trigger] ks@[j])
                        implies (desired.contains(ks@[j]) || (ks@[j].zoom != world.base_zoom && call_ensures(
                        dismissed, (ks@[j], res[ks@[j]]), false) && !(dirty && covered_by(res, *world, ks@[j]))))
                        by {
                        assert(j < i);
                    }
                }
            } else {
                proof {
                    assert(!keys_of(evicted@).contains(k)) by {
                        if keys_of(evicted@).contains(k) {
                            let names = evicted@.map_values(|p: (TileKey, u64)| p.0);
                            let m = choose|m: int| 0 <= m < names.len() && names[m] == k;
                            let j = choose|j: int| 0 <= j < i && ks@[j] == (#[trigger] evicted@[m]).0;
                            assert(ks@[j] == ks@[i as int]);
                        }
                    }
                }
            }
        } else {
            proof {
                assert forall|m: int| 0 <= m < evicted@.len() implies exists|j: int| 0 <= j < i + 1 && ks@[j]
                    == (#[trigger] evicted@[m]).0 by {
                    let j = choose|j: int| 0 <= j < i && ks@[j] == (#[trigger] evicted@[m]).0;
                }
            }
        }
        i = i + 1;
    }
    let ghost all = evicted@;
    let mut m: usize = 0;
    while m < evicted.len()
        invariant
            evicted@ == all,
            m <= all.len(),
            index.desired@ == desired,
            index.loading@ == old(index).loading@,
            index.resident@ == res.remove_keys(keys_of(all.take(m as int))),
        decreases all.len() - m,
    {
        let k = evicted[m].0;
        index.resident.remove(&k);
        proof {
            let names = all.take(m as int).map_values(|p: (TileKey, u64)| p.0);
            assert(all.take(m + 1).map_values(|p: (TileKey, u64)| p.0) =~= names.push(k));
            names.lemma_push_to_set_commute(k);
            assert(res.remove_keys(keys_of(all.take(m + 1))) =~= res.remove_keys(keys_of(all.take(m as int))).remove(k));
        }
        m = m + 1;
    }
    proof {
        assert(all.take(all.len() as int) =~= all);
        assert forall|k: TileKey|
            #![trigger res.contains_key(k)]
            res.contains_key(k) && !keys_of(all).contains(k) implies (desired.contains(k) || (k.zoom
                != world.base_zoom && call_ensures(dismissed, (k, res[k]), false) && !(dirty && covered_by(res, *world, k)))) by {
            assert(ks@.to_set().contains(k));
            let j = choose|j: int| 0 <= j < ks@.len() && ks@[j] == k;
            assert(!keys_of(all).contains(ks@[j]));
        }
    }
    proof {
        if dirty || cover_settled(res, desired, *world) {
            assert forall|k: TileKey|
                #[trigger] index.resident@.contains_key(k) && !index.desired@.contains(k) && k.zoom
                    != world.base_zoom implies !covered_by(index.resident@, *world, k) by {
                assert(res.contains_key(k) && !keys_of(all).contains(k));
                eviction_removes_cover(res, keys_of(all), *world, k);
            }
        }
    }
    coverage_dirty.0 = false;
    evicted
}


// ---------------------------------------------------------------------------
// promote

/// Settles one answer from the source that carries no payload. The tile is
/// no longer loading; a cancelled tile that is still desired and not
/// resident is requested again right away (the camera came back), and the
/// returned request must be handed to the source. A failed tile waits for
/// the next desired-set rebuild.
pub fn handle_drop(index: &mut TileIndex, world: &WorldConfig, drop: &TileDrop) -> (req: Option<TileRequest>)
    requires
        (drop is Cancelled && old(index).desired@.contains(drop.spec_key()) && !old(
            index,
        ).resident@.contains_key(drop.spec_key())) ==> request_fits(*world, drop.spec_key()),
    ensures
        final(index).resident@ == old(index).resident@,
        final(index).desired@ == old(index).desired@,
        req is Some <==> (drop is Cancelled && old(index).desired@.contains(drop.spec_key())
            && !old(index).resident@.contains_key(drop.spec_key())),
        req matches Some(r) ==> r == request_for(*world, drop.spec_key()),
        final(index).loading@ == if req is Some {
            old(index).loading@.remove(drop.spec_key()).insert(drop.spec_key())
        } else {
            old(index).loading@.remove(drop.spec_key())
        },
{
    let key = drop.key();
    index.loading.remove(&key);
    match drop {
        TileDrop::Failed(_, _) => None,
        TileDrop::Cancelled(_) => {
            if index.desired.contains(&key) && !index.resident.contains_key(&key) {
                Some(request_tile(index, world, key))
            } else {
                None
            }
        },
    }
}

/// Promotes one finished payload for `key`. The tile is no longer loading;
/// if it is still desired and not yet resident, `spawn` creates the entity
/// that draws it from the payload, the tile becomes resident with that
/// entity (returned), and coverage is marked dirty. Otherwise `spawn` is not
/// called and the payload is dropped.
pub fn promote_one<P, S: FnMut(TileKey, P) -> u64>(
    index: &mut TileIndex,
    coverage_dirty: &mut CoverageDirty,
    key: TileKey,
    payload: P,
    spawn: &mut S,
) -> (entity: Option<u64>)
    requires
        call_requires(*old(spawn), (key, payload)),
    ensures
        final(index).loading@ == old(index).loading@.remove(key),
        final(index).desired@ == old(index).desired@,
        entity is Some <==> (old(index).desired@.contains(key) && !old(index).resident@.contains_key(key)),
        entity matches Some(e) ==> call_ensures(*old(spawn), (key, payload), e) && final(index).resident@ == old(
            index,
        ).resident@.insert(key, e),
        entity is None ==> final(index).resident@ == old(index).resident@,
        final(coverage_dirty).0 == (old(coverage_dirty).0 || entity is Some),
        forall|w: WorldConfig|
            #[trigger] flag_sound(old(index).resident@, old(index).desired@, old(coverage_dirty).0, w)
                ==> flag_sound(final(index).resident@, final(index).desired@, final(coverage_dirty).0, w),
{
    index.loading.remove(&key);
    if !index.desired.contains(&key) || index.resident.contains_key(&key) {
        return None;
    }
    let e = spawn(key, payload);
    index.resident.insert(key, e);
    coverage_dirty.0 = true;
    Some(e)
}

/// A drop that makes the tile be requested again: it was cancelled, and
/// the tile is still desired and not resident.
pub open spec fn rerequests(d: TileDrop, desired: Set<TileKey>, res: Map<TileKey, u64>) -> bool {
    &&& d is Cancelled
    &&& desired.contains(d.spec_key())
    &&& !res.contains_key(d.spec_key())
}

/// The loading set after settling `drops` in order: each dropped tile stops
/// loading, and a re-requested one is loading again.
pub open spec fn loading_after_drops(
    loading: Set<TileKey>,
    drops: Seq<TileDrop>,
    desired: Set<TileKey>,
    res: Map<TileKey, u64>,
) -> Set<TileKey>
    decreases drops.len(),
{
    if drops.len() == 0 {
        loading
    } else {
        let before = loading_after_drops(loading, drops.drop_last(), desired, res);
        let k = drops.last().spec_key();
        if rerequests(drops.last(), desired, res) {
            before.remove(k).insert(k)
        } else {
            before.remove(k)
        }
    }
}

/// The keys of queued payloads.
pub open spec fn queue_keys<P>(q: Seq<(TileKey, P)>) -> Set<TileKey> {
    q.map_values(|e: (TileKey, P)| e.0).to_set()
}

/// Entity `e` was made by `spawn` for key `k` from the first payload queued
/// for `k` among the first `n` of `q`.
pub open spec fn spawned_from<P, S: FnMut(TileKey, P) -> u64>(
    q: Seq<(TileKey, P)>,
    n: int,
    k: TileKey,
    e: u64,
) -> bool {
    exists|i: int|
        0 <= i < n && #[trigger] q[i].0 == k && (forall|j: int| 0 <= j < i ==> q[j].0 != k) && exists|
            s: S,
        | #[trigger] call_ensures(s, (k, q[i].1), e)
}

/// The number of queued payloads a frame with budget `budget` promotes.
pub open spec fn promoted_count(budget: usize, queued: nat) -> nat {
    if budget < queued {
        budget as nat
    } else {
        queued
    }
}

proof fn lemma_queue_keys_step<P>(q: Seq<(TileKey, P)>, c: int)
    requires
        0 <= c < q.len(),
    ensures
        queue_keys(q.take(c + 1)) == queue_keys(q.take(c)).insert(q[c].0),
{
    let m = q.take(c).map_values(|e: (TileKey, P)| e.0);
    assert(q.take(c + 1).map_values(|e: (TileKey, P)| e.0) =~= m.push(q[c].0));
    m.lemma_push_to_set_commute(q[c].0);
}

/// One frame of promotion. First the drops from the source are settled in
/// order (see [`handle_drop`]); the re-requests they cause are returned for
/// the source. Then the freshly finished payloads join the pending queue,
/// and at most `budget` payloads are taken from its front and promoted one
/// by one (see [`promote_one`]); the rest wait for the next frame.
pub fn promote<P, S: FnMut(TileKey, P) -> u64>(
    index: &mut TileIndex,
    coverage_dirty: &mut CoverageDirty,
    world: &WorldConfig,
    drops: &Vec<TileDrop>,
    ready: Vec<(TileKey, P)>,
    pending: &mut VecDeque<(TileKey, P)>,
    budget: usize,
    spawn: &mut S,
) -> (requests: Vec<TileRequest>)
    requires
        forall|s: S, k: TileKey, p: P| #[trigger] call_requires(s, (k, p)),
        forall|i: int|
            0 <= i < drops@.len() && rerequests(drops@[i], old(index).desired@, old(index).resident@)
                ==> request_fits(*world, #[trigger] drops@[i].spec_key()),
        old(pending)@.len() + ready@.len() <= usize::MAX,
    ensures
        final(index).desired@ == old(index).desired@,
        requests@ == drops@.filter(|d: TileDrop| rerequests(d, old(index).desired@, old(index).resident@)).map_values(
            |d: TileDrop| request_for(*world, d.spec_key()),
        ),
        ({
            let q = old(pending)@ + ready@;
            let taken = q.take(promoted_count(budget, q.len()) as int);
            &&& final(pending)@ == q.skip(promoted_count(budget, q.len()) as int)
            &&& final(index).loading@ == loading_after_drops(
                old(index).loading@,
                drops@,
                old(index).desired@,
                old(index).resident@,
            ).difference(queue_keys(taken))
            &&& final(index).resident@.dom() == old(index).resident@.dom() + queue_keys(taken).intersect(
                old(index).desired@,
            )
        }),
        forall|k: TileKey|
            #[trigger] old(index).resident@.contains_key(k) ==> final(index).resident@.contains_key(k)
                && final(index).resident@[k] == old(index).resident@[k],
        forall|k: TileKey|
            #[trigger] final(index).resident@.contains_key(k) && !old(index).resident@.contains_key(k)
                ==> spawned_from::<P, S>(
                old(pending)@ + ready@,
                promoted_count(budget, (old(pending)@ + ready@).len()) as int,
                k,
                final(index).resident@[k],
            ),
        final(coverage_dirty).0 == (old(coverage_dirty).0 || final(index).resident@.dom() != old(
            index,
        ).resident@.dom()),
        flag_sound(old(index).resident@, old(index).desired@, old(coverage_dirty).0, *world) ==> flag_sound(
            final(index).resident@,
            final(index).desired@,
            final(coverage_dirty).0,
            *world,
        ),
{
    let ghost d0 = index.desired@;
    let ghost r0 = index.resident@;
    let ghost l0 = index.loading@;
    let ghost dirty0 = coverage_dirty.0;
    let ghost f = |d: TileDrop| rerequests(d, d0, r0);
    let ghost g = |d: TileDrop| request_for(*world, d.spec_key());
    // drain the drops
    let mut requests: Vec<TileRequest> = Vec::new();
    let mut i: usize = 0;
    while i < drops.len()
        invariant
            i <= drops@.len(),
            index.desired@ == d0,
            index.resident@ == r0,
            index.loading@ == loading_after_drops(l0, drops@.take(i as int), d0, r0),
            forall|d: TileDrop| #[trigger] f(d) == rerequests(d, d0, r0),
            forall|d: TileDrop| #[trigger] g(d) == request_for(*world, d.spec_key()),
            requests@ == drops@.take(i as int).filter(f).map_values(g),
            forall|j: int|
                0 <= j < drops@.len() && rerequests(drops@[j], d0, r0) ==> request_fits(
                    *world,
                    #[trigger] drops@[j].spec_key(),
                ),
        decreases drops@.len() - i,
    {
        let d = &drops[i];
        let ghost before = requests@;
        let r = handle_drop(index, world, d);
        proof {
            reveal_with_fuel(Seq::filter, 1);
            assert(drops@.take(i + 1).drop_last() =~= drops@.take(i as int));
            assert(drops@.take(i + 1).last() == drops@[i as int]);
        }
        match r {
            Some(req) => {
                requests.push(req);
                proof {
                    assert(requests@ =~= drops@.take(i + 1).filter(f).map_values(g));
                }
            },
            None => {
                proof {
                    assert(requests@ =~= drops@.take(i + 1).filter(f).map_values(g));
                }
            },
        }
        i = i + 1;
    }
    proof {
        assert(drops@.take(drops@.len() as int) =~= drops@);
    }
    let ghost ld = index.loading@;
    // queue the finished payloads
    let ghost p0 = pending@;
    let ghost ready0 = ready@;
    let mut ready = ready;
    let mut j: usize = 0;
    while ready.len() > 0
        invariant
            j <= ready0.len(),
            p0.len() + ready0.len() <= usize::MAX,
            pending@ == p0 + ready0.take(j as int),
            ready@ == ready0.skip(j as int),
        decreases ready@.len(),
    {
        let item = ready.remove(0);
        pending.push_back(item);
        proof {
            assert(ready0.take(j + 1) =~= ready0.take(j as int).push(item));
            assert(ready@ =~= ready0.skip(j + 1));
        }
        j = j + 1;
    }
    let ghost q = pending@;
    proof {
        assert(ready0.take(j as int) =~= ready0);
        assert(q =~= p0 + ready0);
        assert(q.take(0) =~= Seq::<(TileKey, P)>::empty());
        assert(queue_keys(q.take(0)) =~= Set::<TileKey>::empty());
        assert(ld.difference(Set::<TileKey>::empty()) =~= ld);
        assert(r0.dom() + Set::<TileKey>::empty().intersect(d0) =~= r0.dom());
    }
    // budgeted promotion
    let mut c: usize = 0;
    loop
        invariant
            c <= budget,
            c <= q.len(),
            pending@ == q.skip(c as int),
            index.desired@ == d0,
            index.loading@ == ld.difference(queue_keys(q.take(c as int))),
            index.resident@.dom() == r0.dom() + queue_keys(q.take(c as int)).intersect(d0),
            forall|k: TileKey| #[trigger] r0.contains_key(k) ==> index.resident@.contains_key(k)
                && index.resident@[k] == r0[k],
            coverage_dirty.0 == (dirty0 || index.resident@.dom() != r0.dom()),
            forall|k: TileKey|
                #[trigger] index.resident@.contains_key(k) && !r0.contains_key(k) ==> spawned_from::<P, S>(
                    q,
                    c as int,
                    k,
                    index.resident@[k],
                ),
            forall|s: S, k: TileKey, p: P| #[trigger] call_requires(s, (k, p)),
        ensures
            c == promoted_count(budget, q.len()),
            pending@ == q.skip(c as int),
            index.desired@ == d0,
            index.loading@ == ld.difference(queue_keys(q.take(c as int))),
            index.resident@.dom() == r0.dom() + queue_keys(q.take(c as int)).intersect(d0),
            forall|k: TileKey| #[trigger] r0.contains_key(k) ==> index.resident@.contains_key(k)
                && index.resident@[k] == r0[k],
            coverage_dirty.0 == (dirty0 || index.resident@.dom() != r0.dom()),
            forall|k: TileKey|
                #[trigger] index.resident@.contains_key(k) && !r0.contains_key(k) ==> spawned_from::<P, S>(
                    q,
                    c as int,
                    k,
                    index.resident@[k],
                ),
        decreases budget - c,
    {
        if c >= budget {
            break;
        }
        let item = match pending.pop_front() {
            Some(item) => item,
            None => {
                proof {
                    assert(q.skip(c as int).len() == 0);
                }
                break;
            },
        };
        let (key, payload) = item;
        let ghost res_before = index.resident@;
        let ghost dirty_before = coverage_dirty.0;
        proof {
            assert(item == q[c as int]);
            lemma_queue_keys_step(q, c as int);
        }
        let ghost sp = *spawn;
        let e = promote_one(index, coverage_dirty, key, payload, spawn);
        proof {
            assert(pending@ =~= q.skip(c + 1));
            assert forall|k: TileKey|
                #[trigger] index.resident@.contains_key(k) && !r0.contains_key(k) implies spawned_from::<P, S>(
                q,
                c + 1,
                k,
                index.resident@[k],
            ) by {
                if e is Some && k == key {
                    let ee = e->0;
                    assert(call_ensures(sp, (key, q[c as int].1), ee));
                    assert forall|j: int| 0 <= j < c implies q[j].0 != key by {
                        if q[j].0 == key {
                            assert(q.take(c as int).map_values(|e: (TileKey, P)| e.0)[j] == key);
                            assert(queue_keys(q.take(c as int)).contains(key));
                            assert(res_before.dom().contains(key));
                        }
                    }
                    assert(q[c as int].0 == k);
                } else {
                    assert(res_before.contains_key(k));
                    assert(spawned_from::<P, S>(q, c as int, k, index.resident@[k]));
                    let i = choose|i: int|
                        0 <= i < c && #[trigger] q[i].0 == k && (forall|j: int| 0 <= j < i ==> q[j].0 != k)
                            && exists|s: S| #[trigger] call_ensures(s, (k, q[i].1), index.resident@[k]);
                    assert(q[i].0 == k);
                }
            }
            let kt = queue_keys(q.take(c as int));
            assert(index.loading@ =~= ld.difference(kt.insert(key)));
            if e is Some {
                assert(!res_before.dom().contains(key));
                assert(index.resident@.dom() =~= r0.dom() + kt.insert(key).intersect(d0));
                assert(index.resident@.dom().contains(key) && !r0.dom().contains(key));
            } else {
                assert(index.resident@.dom() =~= r0.dom() + kt.insert(key).intersect(d0)) by {
                    if d0.contains(key) {
                        assert(res_before.dom().contains(key));
                    }
                }
            }
        }
        c = c + 1;
    }
    proof {
        if !coverage_dirty.0 {
            lemma_settled_by_dom(r0, index.resident@, d0, *world);
        }
    }
    requests
}

// ---------------------------------------------------------------------------
// update_desired

/// Replaces the desired set with `keys` and marks coverage dirty. Returns
/// the loading tiles that are no longer desired (to cancel at the source,
/// first) and the requests for desired tiles neither resident nor loading
/// (to hand to the source); the requested tiles are now loading.
pub fn update_desired(
    index: &mut TileIndex,
    coverage_dirty: &mut CoverageDirty,
    world: &WorldConfig,
    keys: &Vec<TileKey>,
) -> (r: (Vec<TileKey>, Vec<TileRequest>))
    requires
        forall|k: TileKey|
            keys@.contains(k) && !old(index).resident@.contains_key(k) && !old(index).loading@.contains(k)
                ==> request_fits(*world, k),
    ensures
        final(index).desired@ == keys@.to_set(),
        final(coverage_dirty).0 == true,
        flag_sound(final(index).resident@, final(index).desired@, final(coverage_dirty).0, *world),
        final(index).resident@ == old(index).resident@,
        r.0@.no_duplicates(),
        r.0@.to_set() == old(index).loading@.difference(keys@.to_set()),
        r.1@.map_values(|q: TileRequest| q.key).no_duplicates(),
        r.1@.map_values(|q: TileRequest| q.key).to_set() == keys@.to_set().difference(
            old(index).resident@.dom(),
        ).difference(old(index).loading@),
        forall|i: int| 0 <= i < r.1@.len() ==> #[trigger] r.1@[i] == request_for(*world, r.1@[i].key),
        final(index).loading@ == old(index).loading@ + r.1@.map_values(|q: TileRequest| q.key).to_set(),
        forall|k: TileKey|
            #[trigger] final(index).desired@.contains(k) ==> final(index).resident@.contains_key(k)
                || final(index).loading@.contains(k),
{
    let ghost loading0 = index.loading@;
    let ghost res0 = index.resident@;
    index.desired = TileSet::from_keys(keys);
    coverage_dirty.0 = true;
    let ghost want = keys@.to_set();

    // cancel once, here — the desired set only changes in this step
    let loading_keys = index.loading.to_vec();
    let mut stale: Vec<TileKey> = Vec::new();
    let mut i: usize = 0;
    while i < loading_keys.len()
        invariant
            index.desired@ == want,
            index.loading@ == loading0,
            loading_keys@.no_duplicates(),
            loading_keys@.to_set() == loading0,
            i <= loading_keys@.len(),
            stale@ == loading_keys@.take(i as int).filter(|k: TileKey| !want.contains(k)),
        decreases loading_keys@.len() - i,
    {
        let k = loading_keys[i];
        if !index.desired.contains(&k) {
            stale.push(k);
        }
        proof {
            reveal_with_fuel(Seq::filter, 1);
            assert(loading_keys@.take(i + 1).drop_last() =~= loading_keys@.take(i as int));
        }
        i = i + 1;
    }
    proof {
        assert(loading_keys@.take(loading_keys@.len() as int) =~= loading_keys@);
        let f = |k: TileKey| !want.contains(k);
        broadcast use vstd::seq_lib::group_filter_ensures;
        assert forall|k: TileKey| stale@.to_set().contains(k) <==> loading0.difference(want).contains(k) by {
            if loading0.difference(want).contains(k) {
                let j = choose|j: int| 0 <= j < loading_keys@.len() && loading_keys@[j] == k;
                assert(loading_keys@.to_set().contains(k));
                assert(stale@.contains(k));
            }
            if stale@.to_set().contains(k) {
                assert(stale@.contains(k));
                loading_keys@.lemma_filter_contains_rev(f, k);
                assert(loading_keys@.contains(k));
            }
        }
        assert(stale@.to_set() =~= loading0.difference(want));
        lemma_filter_no_duplicates(loading_keys@, f);
    }

    let desired_keys = index.desired.to_vec();
    let mut missing: Vec<TileKey> = Vec::new();
    let mut j: usize = 0;
    while j < desired_keys.len()
        invariant
            index.desired@ == want,
            index.loading@ == loading0,
            index.resident@ == res0,
            desired_keys@.no_duplicates(),
            desired_keys@.to_set() == want,
            j <= desired_keys@.len(),
            missing@ == desired_keys@.take(j as int).filter(
                |k: TileKey| !res0.contains_key(k) && !loading0.contains(k),
            ),
        decreases desired_keys@.len() - j,
    {
        let k = desired_keys[j];
        if !index.resident.contains_key(&k) && !index.loading.contains(&k) {
            missing.push(k);
        }
        proof {
            reveal_with_fuel(Seq::filter, 1);
            assert(desired_keys@.take(j + 1).drop_last() =~= desired_keys@.take(j as int));
        }
        j = j + 1;
    }
    let ghost g = |k: TileKey| !res0.contains_key(k) && !loading0.contains(k);
    proof {
        assert(desired_keys@.take(desired_keys@.len() as int) =~= desired_keys@);
        broadcast use vstd::seq_lib::group_filter_ensures;
        lemma_filter_no_duplicates(desired_keys@, g);
        assert forall|k: TileKey| missing@.to_set().contains(k) <==> want.difference(res0.dom()).difference(
            loading0,
        ).contains(k) by {
            if want.difference(res0.dom()).difference(loading0).contains(k) {
                assert(desired_keys@.to_set().contains(k));
                let q = choose|q: int| 0 <= q < desired_keys@.len() && desired_keys@[q] == k;
                assert(missing@.contains(k));
            }
            if missing@.to_set().contains(k) {
                assert(missing@.contains(k));
                desired_keys@.lemma_filter_contains_rev(g, k);
                assert(desired_keys@.contains(k));
            }
        }
        assert(missing@.to_set() =~= want.difference(res0.dom()).difference(loading0));
    }

    let mut requests: Vec<TileRequest> = Vec::new();
    let mut m: usize = 0;
    while m < missing.len()
        invariant
            index.desired@ == want,
            index.resident@ == res0,
            missing@.no_duplicates(),
            missing@.to_set() == want.difference(res0.dom()).difference(loading0),
            forall|k: TileKey|
                keys@.contains(k) && !res0.contains_key(k) && !loading0.contains(k) ==> request_fits(*world, k),
            want == keys@.to_set(),
            m <= missing@.len(),
            requests@.map_values(|q: TileRequest| q.key) == missing@.take(m as int),
            forall|a: int| 0 <= a < requests@.len() ==> #[trigger] requests@[a] == request_for(*world, requests@[a].key),
            index.loading@ == loading0 + missing@.take(m as int).to_set(),
        decreases missing@.len() - m,
    {
        let k = missing[m];
        proof {
            assert(missing@.to_set().contains(k));
            assert(keys@.to_set().contains(k));
        }
        let req = request_tile(index, world, k);
        let ghost before = requests@;
        requests.push(req);
        proof {
            assert(requests@.map_values(|q: TileRequest| q.key) =~= before.map_values(|q: TileRequest| q.key).push(k));
            assert(missing@.take(m + 1) =~= missing@.take(m as int).push(k));
            missing@.take(m as int).lemma_push_to_set_commute(k);
            assert(index.loading@ =~= loading0 + missing@.take(m + 1).to_set());
            assert forall|a: int| 0 <= a < requests@.len() implies #[trigger] requests@[a] == request_for(
                *world,
                requests@[a].key,
            ) by {
                if a < before.len() {
                    assert(requests@[a] == before[a]);
                }
            }
        }
        m = m + 1;
    }
    proof {
        assert(missing@.take(missing@.len() as int) =~= missing@);
        assert forall|k: TileKey| #[trigger] index.desired@.contains(k) implies index.resident@.contains_key(k)
            || index.loading@.contains(k) by {
            if !index.resident@.contains_key(k) && !loading0.contains(k) {
                assert(missing@.to_set().contains(k));
            }
        }
    }
    (stale, requests)
}

proof fn lemma_filter_no_duplicates(s: Seq<TileKey>, f: spec_fn(TileKey) -> bool)
    requires
        s.no_duplicates(),
    ensures
        s.filter(f).no_duplicates(),
    decreases s.len(),
{
    reveal_with_fuel(Seq::filter, 1);
    if s.len() > 0 {
        lemma_filter_no_duplicates(s.drop_last(), f);
        if f(s.last()) {
            assert(!s.drop_last().contains(s.last())) by {
                if s.drop_last().contains(s.last()) {
                    let i = choose|i: int| 0 <= i < s.drop_last().len() && s.drop_last()[i] == s.last();
                    assert(s[i] == s[s.len() - 1]);
                }
            }
            assert(!s.drop_last().filter(f).contains(s.last())) by {
                if s.drop_last().filter(f).contains(s.last()) {
                    s.drop_last().lemma_filter_contains_rev(f, s.last());
                }
            }
        }
    }
}

// ---------------------------------------------------------------------------
// status

/// Desired tiles that are resident.
pub open spec fn serviced(index_desired: Set<TileKey>, res: Map<TileKey, u64>) -> Set<TileKey> {
    index_desired.intersect(res.dom())
}

/// Loading-progress bookkeeping, after the desired set was updated. The
/// resident count is refreshed. While nothing is desired the progress is
/// zero and `loading` is untouched; otherwise the progress counts desired
/// resident tiles, and `loading` flips off once nothing is loading and no
/// payload waits for promotion. It never flips back on.
pub fn status(st: &mut TerrainStatus, index: &TileIndex, pending_empty: bool)
    ensures
        final(st).resident == index.resident@.len(),
        index.desired@ == Set::<TileKey>::empty() ==> final(st).serviced == 0 && final(st).desired == 0
            && final(st).loading == old(st).loading,
        index.desired@ != Set::<TileKey>::empty() ==> {
            &&& final(st).desired == index.desired@.len()
            &&& final(st).serviced == serviced(index.desired@, index.resident@).len()
            &&& final(st).loading == (old(st).loading && !(index.loading@ == Set::<TileKey>::empty()
                && pending_empty))
        },
        final(st).serviced <= final(st).desired,
        final(st).loading ==> old(st).loading,
{
    st.resident = index.resident.len();
    if index.desired.is_empty() {
        st.serviced = 0;
        st.desired = 0;
        return;
    }
    let ks = index.desired.to_vec();
    let ghost res = index.resident@;
    let ghost p = |k: TileKey| res.contains_key(k);
    let mut have: usize = 0;
    let mut i: usize = 0;
    while i < ks.len()
        invariant
            i <= ks@.len(),
            res == index.resident@,
            forall|k: TileKey| #[trigger] p(k) == res.contains_key(k),
            have == ks@.take(i as int).filter(p).len(),
            have <= i,
        decreases ks@.len() - i,
    {
        let ghost before = ks@.take(i as int);
        proof {
            reveal_with_fuel(Seq::filter, 1);
            assert(ks@.take(i + 1).drop_last() =~= before);
            assert(ks@.take(i + 1).last() == ks@[i as int]);
            assert(p(ks@[i as int]) == res.contains_key(ks@[i as int]));
        }
        if index.resident.contains_key(&ks[i]) {
            have = have + 1;
        }
        i = i + 1;
    }
    proof {
        assert(ks@.take(ks@.len() as int) =~= ks@);
        lemma_filter_no_duplicates(ks@, p);
        broadcast use vstd::seq_lib::group_filter_ensures;
        assert(ks@.filter(p).to_set() =~= serviced(index.desired@, res)) by {
            assert forall|k: TileKey| ks@.filter(p).to_set().contains(k) <==> serviced(index.desired@, res).contains(k) by {
                if serviced(index.desired@, res).contains(k) {
                    assert(ks@.to_set().contains(k));
                    assert(ks@.filter(p).contains(k));
                }
                if ks@.filter(p).to_set().contains(k) {
                    assert(ks@.filter(p).contains(k));
                    ks@.lemma_filter_contains_rev(p, k);
                    assert(ks@.contains(k));
                }
            }
        }
        ks@.filter(p).unique_seq_to_set();
        ks@.unique_seq_to_set();
    }
    st.serviced = have;
    st.desired = ks.len();
    if st.loading && index.loading.is_empty() && pending_empty {
        st.loading = false;
    }
}

// ---------------------------------------------------------------------------
// meshes and images

/// Grid resolution of the shared mesh for level `i` above the base zoom:
/// 4 vertices per side at the base, doubling per level, capped at 256.
pub open spec fn mesh_resolution(i: nat) -> int
    decreases i,
{
    if i == 0 {
        4
    } else if 2 * mesh_resolution((i - 1) as nat) < 256 {
        2 * mesh_resolution((i - 1) as nat)
    } else {
        256
    }
}

/// Per-zoom mesh grid resolutions, `base_zoom..=max_zoom` in order.
pub fn mesh_resolutions(world: &WorldConfig) -> (r: Vec<u32>)
    requires
        world.valid(),
    ensures
        r@.len() == world.max_zoom - world.base_zoom + 1,
        forall|i: int| 0 <= i < r@.len() ==> r@[i] == mesh_resolution(i as nat),
{
    let levels = world.levels();
    let mut r: Vec<u32> = Vec::new();
    let mut res: u32 = 4;
    let mut i: usize = 0;
    while i < levels
        invariant
            levels <= ZOOM_LEVELS,
            i <= levels,
            r@.len() == i,
            res == mesh_resolution(i as nat),
            4 <= res <= 256,
            forall|j: int| 0 <= j < i ==> r@[j] == mesh_resolution(j as nat),
        decreases levels - i,
    {
        r.push(res);
        res = if res * 2 < 256 {
            res * 2
        } else {
            256
        };
        i = i + 1;
    }
    r
}

/// Expands tightly packed RGB pixels to RGBA with an opaque alpha channel:
/// pixel `p` of the `width × height` image becomes bytes `4p..4p+4` of the
/// result, `[r, g, b, 255]`.
pub fn rgb_to_rgba(width: u32, height: u32, rgb: &[u8]) -> (out: Vec<u8>)
    requires
        3 * width * height <= rgb@.len(),
        4 * width * height <= usize::MAX,
    ensures
        out@.len() == 4 * width * height,
        forall|p: int, c: int|
            0 <= p < width * height && 0 <= c < 3 ==> #[trigger] out@[4 * p + c] == rgb@[3 * p + c],
        forall|p: int| 0 <= p < width * height ==> #[trigger] out@[4 * p + 3] == 255,
{
    proof {
        assert(0 <= width * height <= 4 * width * height) by (nonlinear_arith);
        assert(3 * (width * height) == 3 * width * height) by (nonlinear_arith);
        assert(4 * (width * height) == 4 * width * height) by (nonlinear_arith);
    }
    let n = width as usize * height as usize;
    let mut out: Vec<u8> = Vec::new();
    let mut p: usize = 0;
    while p < n
        invariant
            n == width * height,
            3 * n <= rgb@.len(),
            4 * n <= usize::MAX,
            p <= n,
            out@.len() == 4 * p,
            forall|q: int, c: int| 0 <= q < p && 0 <= c < 3 ==> #[trigger] out@[4 * q + c] == rgb@[3 * q + c],
            forall|q: int| 0 <= q < p ==> #[trigger] out@[4 * q + 3] == 255,
        decreases n - p,
    {
        let base = 3 * p;
        out.push(rgb[base]);
        out.push(rgb[base + 1]);
        out.push(rgb[base + 2]);
        out.push(255u8);
        p = p + 1;
    }
    out
}

} // verus!
