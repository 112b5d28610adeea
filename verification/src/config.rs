//! Configuration values the streaming logic reads. Every field has a
//! default; the engine glue owns the floating-point settings (tile size,
//! distance thresholds, rendering) next to these.

use vstd::prelude::*;

verus! {

/// Lowest zoom level the terrain providers are queried at.
pub const MIN_ZOOM: u8 = 9;

/// Highest zoom level supported.
pub const MAX_ZOOM: u8 = 22;

/// Number of zoom levels in `[MIN_ZOOM, MAX_ZOOM]`.
pub const ZOOM_LEVELS: usize = 14;

/// World topology: where the world origin sits in tile space and which zoom
/// levels are streamed. Effectively immutable once streaming started.
#[derive(Clone, Copy, Debug, PartialEq, Eq, Structural)]
pub struct WorldConfig {
    /// Anchor tile column at `base_zoom` (the world origin sits there).
    pub anchor_x: i32,
    /// Anchor tile row at `base_zoom`.
    pub anchor_z: i32,
    /// Lowest LOD zoom ever loaded (>= MIN_ZOOM).
    pub base_zoom: u8,
    /// Highest LOD zoom (<= MAX_ZOOM). Defaults to the native terrain
    /// ceiling (15).
    pub max_zoom: u8,
}

impl WorldConfig {
    /// The zoom range is one the plugin supports:
    /// `MIN_ZOOM <= base_zoom <= max_zoom <= MAX_ZOOM`.
    pub open spec fn valid(&self) -> bool {
        MIN_ZOOM <= self.base_zoom <= self.max_zoom <= MAX_ZOOM
    }

    /// Whether the zoom range is supported (streaming refuses to start
    /// otherwise).
    pub fn supported(&self) -> (b: bool)
        ensures
            b == self.valid(),
    {
        MIN_ZOOM <= self.base_zoom && self.max_zoom <= MAX_ZOOM && self.base_zoom <= self.max_zoom
    }

    /// Number of streamed zoom levels, `max_zoom - base_zoom + 1`.
    pub fn levels(&self) -> (n: usize)
        requires
            self.valid(),
        ensures
            n == self.max_zoom - self.base_zoom + 1,
            1 <= n <= ZOOM_LEVELS,
    {
        (self.max_zoom - self.base_zoom) as usize + 1
    }
}

impl Default for WorldConfig {
    fn default() -> (w: Self)
        ensures
            w == (WorldConfig { anchor_x: 306, anchor_z: 207, base_zoom: MIN_ZOOM, max_zoom: 15 }),
    {
        WorldConfig { anchor_x: 306, anchor_z: 207, base_zoom: MIN_ZOOM, max_zoom: 15 }
    }
}

/// Which tiles are kept resident and how fast the resident set changes.
#[derive(Clone, Copy, Debug, PartialEq, Eq, Structural)]
pub struct StreamingConfig {
    /// Radius, in base-zoom tiles, of the disc loaded around the camera.
    pub radius: i32,
    /// Cap on tile promotions (entity spawns + asset creation) per frame.
    pub max_promotions_per_frame: usize,
}

impl Default for StreamingConfig {
    fn default() -> (c: Self)
        ensures
            c == (StreamingConfig { radius: 6, max_promotions_per_frame: 8 }),
    {
        StreamingConfig { radius: 6, max_promotions_per_frame: 8 }
    }
}

/// Tile download / cache parameters.
#[derive(Clone, Debug)]
pub struct NetworkConfig {
    /// Worker count; in the browser, the number of concurrent tile fetches.
    pub threads: usize,
    /// Root of the on-disk cache: `cache_dir/{texture,heightmap,normals}/z/x/y.png`.
    pub cache_dir: String,
    /// Provider URL templates with `:zoom:`/`:x:`/`:y:` tokens. The Esri
    /// texture default uses `zoom/y/x` order — that swap is intentional.
    pub texture_url: String,
    /// Terrarium heightmap URL template.
    pub heightmap_url: String,
    /// Normal-map URL template.
    pub normals_url: String,
    /// Highest zoom the terrain providers serve natively (Mapzen: 15). Above
    /// it heightmaps are synthesized from ancestors and normals default; no
    /// HTTP is attempted for either.
    pub native_terrain_zoom: u8,
    /// Connection timeout, seconds.
    pub connect_timeout_secs: u64,
    /// Read timeout, seconds.
    pub read_timeout_secs: u64,
}

impl Default for NetworkConfig {
    fn default() -> (c: Self)
        ensures
            c.threads == 4,
            c.cache_dir@ == ".cache"@,
            c.texture_url@
                == "https://server.arcgisonline.com/ArcGIS/rest/services/World_Imagery/MapServer/tile/:zoom:/:y:/:x:"@,
            c.heightmap_url@ == "https://s3.amazonaws.com/elevation-tiles-prod/terrarium/:zoom:/:x:/:y:.png"@,
            c.normals_url@ == "https://s3.amazonaws.com/elevation-tiles-prod/normal/:zoom:/:x:/:y:.png"@,
            c.native_terrain_zoom == 15,
            c.connect_timeout_secs == 5,
            c.read_timeout_secs == 3,
    {
        NetworkConfig {
            threads: 4,
            cache_dir: String::from_str(".cache"),
            texture_url: String::from_str(
                "https://server.arcgisonline.com/ArcGIS/rest/services/World_Imagery/MapServer/tile/:zoom:/:y:/:x:",
            ),
            heightmap_url: String::from_str(
                "https://s3.amazonaws.com/elevation-tiles-prod/terrarium/:zoom:/:x:/:y:.png",
            ),
            normals_url: String::from_str(
                "https://s3.amazonaws.com/elevation-tiles-prod/normal/:zoom:/:x:/:y:.png",
            ),
            native_terrain_zoom: 15,
            connect_timeout_secs: 5,
            read_timeout_secs: 3,
        }
    }
}

/// Initial-load status for splash screens. `loading` starts true and flips
/// only once a desired set exists and is fully serviced. The loading
/// fraction is `serviced / desired` (zero while nothing is desired).
#[derive(Clone, Copy, Debug, PartialEq, Eq, Structural)]
pub struct TerrainStatus {
    /// Still loading the first desired set.
    pub loading: bool,
    /// Desired tiles that are resident.
    pub serviced: usize,
    /// Size of the desired set.
    pub desired: usize,
    /// Resident tile count (debug convenience).
    pub resident: usize,
}

impl Default for TerrainStatus {
    fn default() -> (s: Self)
        ensures
            s == (TerrainStatus { loading: true, serviced: 0, desired: 0, resident: 0 }),
    {
        TerrainStatus { loading: true, serviced: 0, desired: 0, resident: 0 }
    }
}

} // verus!
