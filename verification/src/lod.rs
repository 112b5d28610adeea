//! Level-of-detail policy: which quadtree tiles should be resident for a
//! camera. The disc scan and the subdivision walk are decided here; how far
//! a tile is from the camera (a floating-point question) is answered by the
//! caller's classifier, one call per visited tile below the top zoom.

use vstd::prelude::*;
use crate::config::ZOOM_LEVELS;

verus! {

/// Anchor-relative tile identity.
#[derive(Clone, Copy, Debug, PartialEq, Eq, Structural, Hash, PartialOrd, Ord)]
pub struct TileKey {
    /// Zoom level in `[base_zoom, max_zoom]`.
    pub zoom: u8,
    /// Tile column, relative to the world anchor at this zoom.
    pub x: i32,
    /// Tile row (slippy-map `y`, world `z`), anchor-relative.
    pub z: i32,
}

/// What the classifier decides for one tile below the top zoom.
#[derive(Clone, Copy, Debug, PartialEq, Eq, Structural)]
pub enum Refine {
    /// Beyond the horizon: not requested at all.
    Beyond,
    /// Far enough for its zoom: kept as is, not subdivided.
    Keep,
    /// Close enough to need its four children instead.
    Subdivide,
}

/// The integer part of the level-of-detail options. The per-zoom distance
/// thresholds and tile sizes are applied by the classifier.
#[derive(Clone, Copy, Debug)]
pub struct LodOptions {
    /// Lowest zoom in the quadtree (the disc scan runs at this level).
    pub base_zoom: u8,
    /// Highest zoom; the walk accepts unconditionally when it reaches it.
    pub max_zoom: u8,
    /// Radius, in base-zoom tiles, of the disc scanned around the camera.
    pub radius: i32,
}

/// `v` halved (rounding toward negative infinity, as `>> 1` does) `n` times.
pub open spec fn halve_n(v: int, n: nat) -> int
    decreases n,
{
    if n == 0 {
        v
    } else {
        halve_n(v / 2, (n - 1) as nat)
    }
}

/// `k` lies inside the quadtree cell `a`; every cell lies inside itself.
pub open spec fn descends(k: TileKey, a: TileKey) -> bool {
    &&& a.zoom <= k.zoom
    &&& halve_n(k.x as int, (k.zoom - a.zoom) as nat) == a.x
    &&& halve_n(k.z as int, (k.zoom - a.zoom) as nat) == a.z
}

/// No entry of `s` lies inside another entry: no duplicates and no tile
/// together with one of its ancestors.
pub open spec fn independent(s: Seq<TileKey>) -> bool {
    forall|i: int, j: int|
        0 <= i < s.len() && 0 <= j < s.len() && i != j ==> !#[trigger] descends(s[i], s[j])
}

/// Child `(ox, oz)` of `k`, one zoom deeper.
pub open spec fn child(k: TileKey, ox: int, oz: int) -> TileKey {
    TileKey { zoom: (k.zoom + 1) as u8, x: (2 * k.x + ox) as i32, z: (2 * k.z + oz) as i32 }
}

/// The keys the subdivision walk from `k` produces when the classifier
/// answers as `cls` does.
pub open spec fn walk(cls: spec_fn(TileKey) -> Refine, max_zoom: u8, k: TileKey) -> Seq<TileKey>
    decreases max_zoom - k.zoom,
{
    if k.zoom >= max_zoom {
        seq![k]
    } else {
        match cls(k) {
            Refine::Beyond => Seq::empty(),
            Refine::Keep => seq![k],
            Refine::Subdivide => walk(cls, max_zoom, child(k, 0, 0)) + walk(cls, max_zoom, child(k, 1, 0))
                + walk(cls, max_zoom, child(k, 0, 1)) + walk(cls, max_zoom, child(k, 1, 1)),
        }
    }
}

/// Base-zoom offset `(dx, dz)` lies inside the scanned disc of radius `r`.
pub open spec fn in_disc(r: int, dx: int, dz: int) -> bool {
    dx * dx + dz * dz < (r - 1) * (r - 1)
}

/// The base-zoom root at offset `(dx, dz)` from the camera tile.
pub open spec fn root(opts: LodOptions, cx: int, cz: int, dx: int, dz: int) -> TileKey {
    TileKey { zoom: opts.base_zoom, x: (cx + dx) as i32, z: (cz + dz) as i32 }
}

/// Walks of the disc roots in column `dx`, rows `dz..=radius`.
pub open spec fn disc_column(
    cls: spec_fn(TileKey) -> Refine,
    opts: LodOptions,
    cx: int,
    cz: int,
    dx: int,
    dz: int,
) -> Seq<TileKey>
    decreases opts.radius + 1 - dz,
{
    if dz > opts.radius {
        Seq::empty()
    } else {
        (if in_disc(opts.radius as int, dx, dz) {
            walk(cls, opts.max_zoom, root(opts, cx, cz, dx, dz))
        } else {
            Seq::empty()
        }) + disc_column(cls, opts, cx, cz, dx, dz + 1)
    }
}

/// Walks of the disc roots in columns `dx..=radius`.
pub open spec fn disc_walk(
    cls: spec_fn(TileKey) -> Refine,
    opts: LodOptions,
    cx: int,
    cz: int,
    dx: int,
) -> Seq<TileKey>
    decreases opts.radius + 1 - dx,
{
    if dx > opts.radius {
        Seq::empty()
    } else {
        disc_column(cls, opts, cx, cz, dx, -opts.radius) + disc_walk(cls, opts, cx, cz, dx + 1)
    }
}

/// The whole desired set for the camera tile `(cx, cz)`, in production order.
pub open spec fn desired_walk(
    cls: spec_fn(TileKey) -> Refine,
    opts: LodOptions,
    cx: int,
    cz: int,
) -> Seq<TileKey> {
    disc_walk(cls, opts, cx, cz, -opts.radius)
}

/// Every answer the classifier can give is the one `cls` gives.
pub open spec fn follows<F: Fn(TileKey) -> Refine>(
    classify: F,
    cls: spec_fn(TileKey) -> Refine,
) -> bool {
    forall|k: TileKey, r: Refine| #[trigger] call_ensures(classify, (k,), r) ==> r == cls(k)
}

/// `k` is a tile the walk may emit: at the top zoom, or kept by the
/// classifier.
pub open spec fn emitted_by<F: Fn(TileKey) -> Refine>(classify: F, max_zoom: u8, k: TileKey) -> bool {
    k.zoom == max_zoom || call_ensures(classify, (k,), Refine::Keep)
}

/// `v >> 1`: `v` halved, rounding toward negative infinity.
pub fn halve(v: i32) -> (h: i32)
    ensures
        h == v / 2,
{
    let h = v >> 1u32;
    assert(h * 2 <= v && v < h * 2 + 2) by (bit_vector)
        requires
            h == v >> 1u32,
    ;
    h
}

/// `v >> 2`: `v` quartered, rounding toward negative infinity.
pub fn quarter(v: i32) -> (h: i32)
    ensures
        h == v / 4,
{
    let h = v >> 2u32;
    assert(h * 4 <= v && v < h * 4 + 4) by (bit_vector)
        requires
            h == v >> 2u32,
    ;
    h
}

/// One more halving halves the result once more; halving keeps an `i32`
/// value within `i32`.
pub proof fn lemma_halve_step(v: int, n: nat)
    ensures
        halve_n(v, n + 1) == halve_n(v, n) / 2,
        i32::MIN <= v <= i32::MAX ==> i32::MIN <= halve_n(v, n) <= i32::MAX,
    decreases n,
{
    if n > 0 {
        lemma_halve_step(v / 2, (n - 1) as nat);
    } else {
        assert(halve_n(v / 2, 0) == v / 2);
    }
}

/// `b * 2^n`.
pub open spec fn span(b: int, n: nat) -> int
    decreases n,
{
    if n == 0 {
        b
    } else {
        2 * span(b, (n - 1) as nat)
    }
}

/// Largest magnitude bound under which tile coordinates stay `i32`.
pub open spec fn coord_limit() -> int {
    0x8000_0000
}

/// Absolute value of `v`.
pub open spec fn abs(v: int) -> int {
    if v < 0 {
        -v
    } else {
        v
    }
}

/// Largest `|dx|` (and `|dz|`) of a root the disc scan walks: the disc
/// `dx² + dz² < (r − 1)²` reaches `r − 2` for `r >= 2`, only the centre for
/// `r == 0`, and nothing otherwise.
pub open spec fn scan_radius(r: i32) -> int {
    if r >= 2 {
        r - 2
    } else {
        0
    }
}

/// The roots the disc scan walks lie within [`scan_radius`].
proof fn lemma_disc_within_scan_radius(r: i32, dx: int, dz: int)
    requires
        -r <= dx <= r,
        -r <= dz <= r,
        in_disc(r as int, dx, dz),
    ensures
        abs(dx) <= scan_radius(r),
        abs(dz) <= scan_radius(r),
{
    assert(0 <= dx * dx && 0 <= dz * dz) by (nonlinear_arith);
    assert(dx * dx < (r - 1) * (r - 1)) by (nonlinear_arith)
        requires
            dx * dx + dz * dz < (r - 1) * (r - 1),
            0 <= dz * dz,
    ;
    assert(dz * dz < (r - 1) * (r - 1)) by (nonlinear_arith)
        requires
            dx * dx + dz * dz < (r - 1) * (r - 1),
            0 <= dx * dx,
    ;
    assert(abs(dx) <= scan_radius(r)) by (nonlinear_arith)
        requires
            -r <= dx <= r,
            dx * dx < (r - 1) * (r - 1),
    ;
    assert(abs(dz) <= scan_radius(r)) by (nonlinear_arith)
        requires
            -r <= dz <= r,
            dz * dz < (r - 1) * (r - 1),
    ;
}

/// Every coordinate the walk can reach from camera tile `(cx, cz)` fits `i32`.
pub open spec fn disc_fits(opts: LodOptions, cx: int, cz: int) -> bool {
    let b = (if abs(cx) < abs(cz) {
        abs(cz)
    } else {
        abs(cx)
    }) + scan_radius(opts.radius) + 1;
    span(b, (opts.max_zoom - opts.base_zoom) as nat) <= coord_limit()
}

/// The options describe a walk the library can run: zooms ordered, at most
/// `ZOOM_LEVELS` levels, and a radius whose squares fit `i32`.
pub open spec fn options_valid(opts: LodOptions) -> bool {
    &&& opts.base_zoom <= opts.max_zoom
    &&& opts.max_zoom - opts.base_zoom < ZOOM_LEVELS
    &&& -46339 <= opts.radius <= 32767
}

proof fn lemma_halve_n_add(v: int, m: nat, n: nat)
    ensures
        halve_n(halve_n(v, m), n) == halve_n(v, m + n),
    decreases m,
{
    if m > 0 {
        lemma_halve_n_add(v / 2, (m - 1) as nat, n);
    }
}

proof fn lemma_descends_trans(k: TileKey, m: TileKey, a: TileKey)
    requires
        descends(k, m),
        descends(m, a),
    ensures
        descends(k, a),
{
    lemma_halve_n_add(k.x as int, (k.zoom - m.zoom) as nat, (m.zoom - a.zoom) as nat);
    lemma_halve_n_add(k.z as int, (k.zoom - m.zoom) as nat, (m.zoom - a.zoom) as nat);
}

/// Tiles inside two different cells of one zoom are unrelated.
proof fn lemma_disjoint_cells(a: TileKey, b: TileKey, ca: TileKey, cb: TileKey)
    requires
        descends(a, ca),
        descends(b, cb),
        ca.zoom == cb.zoom,
        ca != cb,
    ensures
        !descends(a, b),
        !descends(b, a),
{
    if descends(a, b) {
        lemma_descends_trans(a, b, cb);
    }
    if descends(b, a) {
        lemma_descends_trans(b, a, ca);
    }
}

proof fn lemma_halve_once(v: int)
    ensures
        halve_n(v, 1) == v / 2,
{
    assert(halve_n(v / 2, 0) == v / 2);
}

proof fn lemma_span_double(b: int, n: nat)
    ensures
        span(2 * b, n) == 2 * span(b, n),
    decreases n,
{
    if n > 0 {
        lemma_span_double(b, (n - 1) as nat);
    }
}

proof fn lemma_span_grows(b: int, n: nat)
    requires
        0 <= b,
    ensures
        b <= span(b, n),
    decreases n,
{
    if n > 0 {
        lemma_span_grows(b, (n - 1) as nat);
    }
}

/// The part of `now` appended after `before`.
pub open spec fn appended(before: Seq<TileKey>, now: Seq<TileKey>) -> Seq<TileKey> {
    now.skip(before.len() as int)
}

/// Concatenation keeps independence when no cross pair is related.
proof fn lemma_independent_concat(s1: Seq<TileKey>, s2: Seq<TileKey>)
    requires
        independent(s1),
        independent(s2),
        forall|i: int, j: int|
            0 <= i < s1.len() && 0 <= j < s2.len() ==> !descends(s1[i], s2[j]) && !descends(
                s2[j],
                s1[i],
            ),
    ensures
        independent(s1 + s2),
{
    let s = s1 + s2;
    assert forall|i: int, j: int| 0 <= i < s.len() && 0 <= j < s.len() && i != j implies !descends(
        s[i],
        s[j],
    ) by {
        if i < s1.len() && j >= s1.len() {
            assert(!descends(s1[i], s2[j - s1.len()]));
        } else if i >= s1.len() && j < s1.len() {
            assert(!descends(s2[i - s1.len()], s1[j]));
        } else if i < s1.len() {
            assert(!descends(s1[i], s1[j]));
        } else {
            assert(!descends(s2[i - s1.len()], s2[j - s1.len()]));
        }
    }
}

fn walk_from<F: Fn(TileKey) -> Refine>(
    opts: &LodOptions,
    classify: &F,
    out: &mut Vec<TileKey>,
    key: TileKey,
    Ghost(b): Ghost<int>,
)
    requires
        opts.base_zoom <= key.zoom <= opts.max_zoom,
        forall|k: TileKey| call_requires(*classify, (k,)),
        0 < b,
        -b <= key.x < b,
        -b <= key.z < b,
        span(b, (opts.max_zoom - key.zoom) as nat) <= coord_limit(),
    ensures
        old(out)@.len() <= final(out)@.len(),
        final(out)@.take(old(out)@.len() as int) == old(out)@,
        forall|i: int|
            0 <= i < appended(old(out)@, final(out)@).len() ==> {
                let k = #[trigger] appended(old(out)@, final(out)@)[i];
                &&& descends(k, key)
                &&& k.zoom <= opts.max_zoom
                &&& emitted_by(*classify, opts.max_zoom, k)
            },
        independent(appended(old(out)@, final(out)@)),
        forall|cls: spec_fn(TileKey) -> Refine| #[trigger]
            follows(*classify, cls) ==> appended(old(out)@, final(out)@) == walk(
                cls,
                opts.max_zoom,
                key,
            ),
    decreases opts.max_zoom - key.zoom,
{
    let ghost before = out@;
    if key.zoom == opts.max_zoom {
        out.push(key);
        proof {
            assert(appended(before, out@) =~= seq![key]);
            assert(descends(key, key));
        }
        return;
    }
    let r = classify(key);
    match r {
        Refine::Beyond => {
            proof {
                assert(appended(before, out@) =~= Seq::<TileKey>::empty());
                assert(out@.take(before.len() as int) =~= before);
            }
        },
        Refine::Keep => {
            out.push(key);
            proof {
                assert(appended(before, out@) =~= seq![key]);
                assert(descends(key, key));
            }
        },
        Refine::Subdivide => {
            proof {
                lemma_span_double(b, (opts.max_zoom - key.zoom - 1) as nat);
                lemma_span_grows(2 * b, (opts.max_zoom - key.zoom - 1) as nat);
            }
            let zoom = key.zoom + 1;
            let x2 = key.x * 2;
            let z2 = key.z * 2;
            let c0 = TileKey { zoom, x: x2, z: z2 };
            let c1 = TileKey { zoom, x: x2 + 1, z: z2 };
            let c2 = TileKey { zoom, x: x2, z: z2 + 1 };
            let c3 = TileKey { zoom, x: x2 + 1, z: z2 + 1 };
            let ghost s0 = out@;
            walk_from(opts, classify, out, c0, Ghost(2 * b));
            let ghost s1 = out@;
            walk_from(opts, classify, out, c1, Ghost(2 * b));
            let ghost s2 = out@;
            walk_from(opts, classify, out, c2, Ghost(2 * b));
            let ghost s3 = out@;
            walk_from(opts, classify, out, c3, Ghost(2 * b));
            let ghost s4 = out@;
            proof {
                let p0 = appended(s0, s1);
                let p1 = appended(s1, s2);
                let p2 = appended(s2, s3);
                let p3 = appended(s3, s4);
                assert(s2.take(s1.len() as int) == s1);
                assert(s3.take(s2.len() as int) == s2);
                assert(s4.take(s3.len() as int) == s3);
                assert(s4 =~= s0 + p0 + p1 + p2 + p3) by {
                    assert(s1 =~= s0 + p0);
                    assert(s2 =~= s1 + p1);
                    assert(s3 =~= s2 + p2);
                    assert(s4 =~= s3 + p3);
                }
                assert(appended(before, s4) =~= p0 + p1 + p2 + p3);
                assert(s4.take(before.len() as int) =~= before);
                assert(c0 == child(key, 0, 0));
                assert(c1 == child(key, 1, 0));
                assert(c2 == child(key, 0, 1));
                assert(c3 == child(key, 1, 1));
                lemma_halve_once(c0.x as int);
                lemma_halve_once(c0.z as int);
                lemma_halve_once(c1.x as int);
                lemma_halve_once(c2.z as int);
                assert(descends(c0, key));
                assert(descends(c1, key));
                assert(descends(c2, key));
                assert(descends(c3, key));
                // cross pairs between different children are unrelated
                assert forall|i: int, j: int| 0 <= i < p0.len() && 0 <= j < p1.len() implies !descends(
                    p0[i],
                    p1[j],
                ) && !descends(p1[j], p0[i]) by {
                    lemma_disjoint_cells(p0[i], p1[j], c0, c1);
                }
                lemma_independent_concat(p0, p1);
                let q01 = p0 + p1;
                assert forall|i: int, j: int| 0 <= i < q01.len() && 0 <= j < p2.len() implies !descends(
                    q01[i],
                    p2[j],
                ) && !descends(p2[j], q01[i]) by {
                    if i < p0.len() {
                        lemma_disjoint_cells(q01[i], p2[j], c0, c2);
                    } else {
                        assert(q01[i] == p1[i - p0.len()]);
                        lemma_disjoint_cells(q01[i], p2[j], c1, c2);
                    }
                }
                lemma_independent_concat(q01, p2);
                let q012 = q01 + p2;
                assert forall|i: int, j: int| 0 <= i < q012.len() && 0 <= j < p3.len() implies !descends(
                    q012[i],
                    p3[j],
                ) && !descends(p3[j], q012[i]) by {
                    if i < p0.len() {
                        assert(q012[i] == p0[i]);
                        lemma_disjoint_cells(q012[i], p3[j], c0, c3);
                    } else if i < p0.len() + p1.len() {
                        assert(q012[i] == p1[i - p0.len()]);
                        lemma_disjoint_cells(q012[i], p3[j], c1, c3);
                    } else {
                        assert(q012[i] == p2[i - p0.len() - p1.len()]);
                        lemma_disjoint_cells(q012[i], p3[j], c2, c3);
                    }
                }
                lemma_independent_concat(q012, p3);
                let all = appended(before, s4);
                assert forall|i: int| 0 <= i < all.len() implies {
                    let k = #[trigger] all[i];
                    &&& descends(k, key)
                    &&& k.zoom <= opts.max_zoom
                    &&& emitted_by(*classify, opts.max_zoom, k)
                } by {
                    let k = all[i];
                    if i < p0.len() {
                        assert(k == p0[i]);
                        lemma_descends_trans(k, c0, key);
                    } else if i < p0.len() + p1.len() {
                        assert(k == p1[i - p0.len()]);
                        lemma_descends_trans(k, c1, key);
                    } else if i < p0.len() + p1.len() + p2.len() {
                        assert(k == p2[i - p0.len() - p1.len()]);
                        lemma_descends_trans(k, c2, key);
                    } else {
                        assert(k == p3[i - p0.len() - p1.len() - p2.len()]);
                        lemma_descends_trans(k, c3, key);
                    }
                }
                assert forall|cls: spec_fn(TileKey) -> Refine| #[trigger]
                    follows(*classify, cls) implies appended(before, s4) == walk(
                    cls,
                    opts.max_zoom,
                    key,
                ) by {
                    assert(call_ensures(*classify, (key,), r));
                    assert(cls(key) == Refine::Subdivide);
                }
            }
        },
    }
    proof {
        assert forall|cls: spec_fn(TileKey) -> Refine| #[trigger]
            follows(*classify, cls) implies appended(before, out@) == walk(
            cls,
            opts.max_zoom,
            key,
        ) by {
            assert(call_ensures(*classify, (key,), r));
        }
    }
}


/// Base-zoom offset of the disc root that `k` descends from, in `x`.
pub open spec fn root_dx(opts: LodOptions, cx: int, k: TileKey) -> int {
    halve_n(k.x as int, (k.zoom - opts.base_zoom) as nat) - cx
}

/// Base-zoom offset of the disc root that `k` descends from, in `z`.
pub open spec fn root_dz(opts: LodOptions, cz: int, k: TileKey) -> int {
    halve_n(k.z as int, (k.zoom - opts.base_zoom) as nat) - cz
}

/// `(dx, dz)` is one of the offsets the disc scan visits and accepts.
pub open spec fn in_scan(opts: LodOptions, dx: int, dz: int) -> bool {
    &&& -opts.radius <= dx <= opts.radius
    &&& -opts.radius <= dz <= opts.radius
    &&& in_disc(opts.radius as int, dx, dz)
}

/// Scan order: `(dx1, dz1)` is visited before `(dx2, dz2)`.
pub open spec fn scanned_before(dx1: int, dz1: int, dx2: int, dz2: int) -> bool {
    dx1 < dx2 || (dx1 == dx2 && dz1 < dz2)
}

/// What the scan knows of an emitted key: it lies under the disc root it
/// came from, within the zoom range, and was emitted by the walk.
pub open spec fn placed<F: Fn(TileKey) -> Refine>(
    opts: LodOptions,
    cx: int,
    cz: int,
    classify: F,
    k: TileKey,
) -> bool {
    &&& opts.base_zoom <= k.zoom <= opts.max_zoom
    &&& in_scan(opts, root_dx(opts, cx, k), root_dz(opts, cz, k))
    &&& descends(k, root(opts, cx, cz, root_dx(opts, cx, k), root_dz(opts, cz, k)))
    &&& emitted_by(classify, opts.max_zoom, k)
}

/// Whether [`desired_tiles`] accepts these options and camera tile: the
/// zoom range and radius are valid and every reachable coordinate fits
/// `i32`.
pub fn can_walk(opts: &LodOptions, cam_tile_x: i32, cam_tile_z: i32) -> (b: bool)
    ensures
        b == (options_valid(*opts) && disc_fits(*opts, cam_tile_x as int, cam_tile_z as int)),
{
    if !(opts.base_zoom <= opts.max_zoom && ((opts.max_zoom - opts.base_zoom) as usize) < ZOOM_LEVELS
        && -46339 <= opts.radius && opts.radius <= 32767) {
        return false;
    }
    let ax: i64 = if cam_tile_x < 0 {
        -(cam_tile_x as i64)
    } else {
        cam_tile_x as i64
    };
    let az: i64 = if cam_tile_z < 0 {
        -(cam_tile_z as i64)
    } else {
        cam_tile_z as i64
    };
    let r: i64 = if opts.radius >= 2 {
        opts.radius as i64 - 2
    } else {
        0
    };
    let b: i64 = (if ax < az {
        az
    } else {
        ax
    }) + r + 1;
    let n = opts.max_zoom - opts.base_zoom;
    let ghost gb = b as int;
    assert(gb == (if abs(cam_tile_x as int) < abs(cam_tile_z as int) {
        abs(cam_tile_z as int)
    } else {
        abs(cam_tile_x as int)
    }) + scan_radius(opts.radius) + 1);
    if b > 0x8000_0000 {
        proof {
            lemma_span_grows(gb, n as nat);
        }
        return false;
    }
    proof {
        assert(span(gb, 0) == gb);
    }
    // span(b, n) = b · 2^n, doubled step by step while it stays in bounds
    let mut v: i64 = b;
    let mut i: u8 = 0;
    while i < n
        invariant
            i <= n,
            n == opts.max_zoom - opts.base_zoom,
            0 < gb,
            gb == (if abs(cam_tile_x as int) < abs(cam_tile_z as int) {
                abs(cam_tile_z as int)
            } else {
                abs(cam_tile_x as int)
            }) + scan_radius(opts.radius) + 1,
            options_valid(*opts),
            v == span(gb, i as nat),
            0 < v <= coord_limit(),
        decreases n - i,
    {
        proof {
            lemma_span_double(gb, i as nat);
            assert(span(gb, (i + 1) as nat) == 2 * span(gb, i as nat));
        }
        if v > 0x4000_0000 {
            proof {
                lemma_span_grows_from(gb, (i + 1) as nat, n as nat);
            }
            return false;
        }
        v = v * 2;
        i = i + 1;
    }
    v <= 0x8000_0000
}

proof fn lemma_span_grows_from(b: int, i: nat, n: nat)
    requires
        0 < b,
        i <= n,
    ensures
        span(b, i) <= span(b, n),
    decreases n,
{
    if i < n {
        lemma_span_grows_from(b, i, (n - 1) as nat);
        assert(span(b, (n - 1) as nat) >= 0) by {
            lemma_span_nonneg(b, (n - 1) as nat);
        }
    }
}

proof fn lemma_span_nonneg(b: int, n: nat)
    requires
        0 <= b,
    ensures
        0 <= span(b, n),
    decreases n,
{
    if n > 0 {
        lemma_span_nonneg(b, (n - 1) as nat);
    }
}

/// Appends the desired tile keys for the camera standing over base-zoom tile
/// `(cam_tile_x, cam_tile_z)` to `out`, without clearing it. Every base tile
/// of the disc `dx² + dz² < (radius − 1)²` is walked, in the order
/// `dx = −radius..=radius`, `dz = −radius..=radius`; a walk stops at
/// `max_zoom`, and below it asks `classify` whether the tile is beyond the
/// horizon, kept, or subdivided into its four children.
pub fn desired_tiles<F: Fn(TileKey) -> Refine>(
    opts: &LodOptions,
    cam_tile_x: i32,
    cam_tile_z: i32,
    classify: F,
    out: &mut Vec<TileKey>,
)
    requires
        options_valid(*opts),
        disc_fits(*opts, cam_tile_x as int, cam_tile_z as int),
        forall|k: TileKey| call_requires(classify, (k,)),
    ensures
        old(out)@.len() <= final(out)@.len(),
        final(out)@.take(old(out)@.len() as int) == old(out)@,
        forall|i: int|
            0 <= i < appended(old(out)@, final(out)@).len() ==> placed(
                *opts,
                cam_tile_x as int,
                cam_tile_z as int,
                classify,
                #[trigger] appended(old(out)@, final(out)@)[i],
            ),
        independent(appended(old(out)@, final(out)@)),
        forall|cls: spec_fn(TileKey) -> Refine| #[trigger]
            follows(classify, cls) ==> appended(old(out)@, final(out)@) == desired_walk(
                cls,
                *opts,
                cam_tile_x as int,
                cam_tile_z as int,
            ),
{
    let ghost start = out@;
    let ghost cx = cam_tile_x as int;
    let ghost cz = cam_tile_z as int;
    let ghost b = (if abs(cx) < abs(cz) {
        abs(cz)
    } else {
        abs(cx)
    }) + scan_radius(opts.radius) + 1;
    proof {
        lemma_span_grows(b, (opts.max_zoom - opts.base_zoom) as nat);
    }
    let r = opts.radius;
    proof {
        assert(0 <= (r - 1) * (r - 1) <= 46340 * 46340) by (nonlinear_arith)
            requires
                -46339 <= r <= 32767,
        ;
    }
    let allowed = (r - 1) * (r - 1);
    let mut dx: i32 = -r;
    while dx <= r
        invariant
            options_valid(*opts),
            cx == cam_tile_x as int,
            cz == cam_tile_z as int,
            r == opts.radius,
            allowed == (r - 1) * (r - 1),
            b <= coord_limit(),
            span(b, (opts.max_zoom - opts.base_zoom) as nat) <= coord_limit(),
            b == (if abs(cx) < abs(cz) {
                abs(cz)
            } else {
                abs(cx)
            }) + scan_radius(opts.radius) + 1,
            forall|k: TileKey| call_requires(classify, (k,)),
            -r <= dx,
            r < 0 ==> dx == -r,
            r >= 0 ==> dx <= r + 1,
            start.len() <= out@.len(),
            out@.take(start.len() as int) == start,
            forall|i: int|
                0 <= i < appended(start, out@).len() ==> {
                    let k = #[trigger] appended(start, out@)[i];
                    &&& placed(*opts, cx, cz, classify, k)
                    &&& root_dx(*opts, cx, k) < dx
                },
            independent(appended(start, out@)),
            forall|cls: spec_fn(TileKey) -> Refine| #[trigger]
                follows(classify, cls) ==> appended(start, out@) + disc_walk(cls, *opts, cx, cz, dx as int)
                    == desired_walk(cls, *opts, cx, cz),
        decreases r + 1 - dx,
    {
        let mut dz: i32 = -r;
        let ghost col_start = out@;
        while dz <= r
            invariant
                options_valid(*opts),
                cx == cam_tile_x as int,
                cz == cam_tile_z as int,
                r == opts.radius,
                allowed == (r - 1) * (r - 1),
                b <= coord_limit(),
                span(b, (opts.max_zoom - opts.base_zoom) as nat) <= coord_limit(),
                b == (if abs(cx) < abs(cz) {
                    abs(cz)
                } else {
                    abs(cx)
                }) + scan_radius(opts.radius) + 1,
                forall|k: TileKey| call_requires(classify, (k,)),
                -r <= dx <= r,
                -r <= dz <= r + 1,
                start.len() <= out@.len(),
                out@.take(start.len() as int) == start,
                forall|i: int|
                    0 <= i < appended(start, out@).len() ==> {
                        let k = #[trigger] appended(start, out@)[i];
                        &&& placed(*opts, cx, cz, classify, k)
                        &&& scanned_before(root_dx(*opts, cx, k), root_dz(*opts, cz, k), dx as int, dz as int)
                    },
                independent(appended(start, out@)),
                forall|cls: spec_fn(TileKey) -> Refine| #[trigger]
                    follows(classify, cls) ==> appended(start, out@) + disc_column(cls, *opts, cx, cz, dx as int, dz as int)
                        + disc_walk(cls, *opts, cx, cz, dx + 1) == desired_walk(cls, *opts, cx, cz),
            decreases r + 1 - dz,
        {
            proof {
                assert(dx * dx <= r * r) by (nonlinear_arith)
                    requires
                        -r <= dx <= r,
                ;
                assert(dz * dz <= r * r) by (nonlinear_arith)
                    requires
                        -r <= dz <= r,
                ;
                assert(r * r <= 32767 * 32767) by (nonlinear_arith)
                    requires
                        0 <= r <= 32767,
                ;
                assert(0 <= dx * dx) by (nonlinear_arith);
                assert(0 <= dz * dz) by (nonlinear_arith);
            }
            let ghost before = out@;
            if dx * dx + dz * dz < allowed {
                proof {
                    lemma_disc_within_scan_radius(r, dx as int, dz as int);
                }
                let key = TileKey { zoom: opts.base_zoom, x: cam_tile_x + dx, z: cam_tile_z + dz };
                walk_from(opts, &classify, out, key, Ghost(b));
                proof {
                    let fresh = appended(before, out@);
                    let acc = appended(start, before);
                    assert(out@.take(before.len() as int) == before);
                    assert(out@ =~= before + fresh);
                    assert(appended(start, out@) =~= acc + fresh);
                    assert(out@.take(start.len() as int) =~= start);
                    assert(key == root(*opts, cx, cz, dx as int, dz as int));
                    assert forall|i: int| 0 <= i < fresh.len() implies {
                        let k = #[trigger] fresh[i];
                        &&& placed(*opts, cx, cz, classify, k)
                        &&& root_dx(*opts, cx, k) == dx
                        &&& root_dz(*opts, cz, k) == dz
                    } by {
                        let k = fresh[i];
                        assert(descends(k, key));
                    }
                    assert forall|i: int, j: int| 0 <= i < acc.len() && 0 <= j < fresh.len() implies !descends(
                        acc[i],
                        fresh[j],
                    ) && !descends(fresh[j], acc[i]) by {
                        let a = acc[i];
                        assert(appended(start, out@)[i] == a);
                        let ra = root(*opts, cx, cz, root_dx(*opts, cx, a), root_dz(*opts, cz, a));
                        assert(ra != key);
                        lemma_disjoint_cells(a, fresh[j], ra, key);
                    }
                    lemma_independent_concat(acc, fresh);
                    assert forall|i: int| 0 <= i < appended(start, out@).len() implies {
                        let k = #[trigger] appended(start, out@)[i];
                        &&& placed(*opts, cx, cz, classify, k)
                        &&& scanned_before(root_dx(*opts, cx, k), root_dz(*opts, cz, k), dx as int, dz + 1)
                    } by {
                        if i >= acc.len() {
                            assert(appended(start, out@)[i] == fresh[i - acc.len()]);
                        } else {
                            assert(appended(start, out@)[i] == acc[i]);
                        }
                    }
                    assert forall|cls: spec_fn(TileKey) -> Refine| #[trigger]
                        follows(classify, cls) implies appended(start, out@) + disc_column(cls, *opts, cx, cz, dx as int, dz + 1)
                            + disc_walk(cls, *opts, cx, cz, dx + 1) == desired_walk(cls, *opts, cx, cz) by {
                        assert(in_disc(r as int, dx as int, dz as int));
                        assert(disc_column(cls, *opts, cx, cz, dx as int, dz as int) == walk(cls, opts.max_zoom, key)
                            + disc_column(cls, *opts, cx, cz, dx as int, dz + 1));
                        assert(appended(start, out@) + disc_column(cls, *opts, cx, cz, dx as int, dz + 1)
                            + disc_walk(cls, *opts, cx, cz, dx + 1) =~= appended(start, before) + disc_column(
                            cls, *opts, cx, cz, dx as int, dz as int) + disc_walk(cls, *opts, cx, cz, dx + 1));
                    }
                }
            } else {
                proof {
                    assert forall|cls: spec_fn(TileKey) -> Refine| #[trigger]
                        follows(classify, cls) implies appended(start, out@) + disc_column(cls, *opts, cx, cz, dx as int, dz + 1)
                            + disc_walk(cls, *opts, cx, cz, dx + 1) == desired_walk(cls, *opts, cx, cz) by {
                        assert(!in_disc(r as int, dx as int, dz as int));
                        assert(disc_column(cls, *opts, cx, cz, dx as int, dz as int) =~= disc_column(cls, *opts, cx, cz, dx as int, dz + 1));
                    }
                }
            }
            dz = dz + 1;
        }
        proof {
            assert forall|cls: spec_fn(TileKey) -> Refine| #[trigger]
                follows(classify, cls) implies appended(start, out@) + disc_walk(cls, *opts, cx, cz, dx + 1)
                    == desired_walk(cls, *opts, cx, cz) by {
                assert(disc_column(cls, *opts, cx, cz, dx as int, dz as int) =~= Seq::<TileKey>::empty());
                assert(appended(start, out@) + disc_column(cls, *opts, cx, cz, dx as int, dz as int)
                    + disc_walk(cls, *opts, cx, cz, dx + 1) =~= appended(start, out@) + disc_walk(cls, *opts, cx, cz, dx + 1));
            }
        }
        dx = dx + 1;
    }
    proof {
        assert forall|cls: spec_fn(TileKey) -> Refine| #[trigger]
            follows(classify, cls) implies appended(start, out@) == desired_walk(cls, *opts, cx, cz) by {
            assert(disc_walk(cls, *opts, cx, cz, dx as int) =~= Seq::<TileKey>::empty());
            assert(appended(start, out@) + disc_walk(cls, *opts, cx, cz, dx as int) =~= appended(start, out@));
        }
    }
}

} // verus!
