//! The tile source: what one tile fetch asks for and how it can end, the
//! provider URLs, and the scheduling of fetches.

use vstd::prelude::*;
use crate::config::NetworkConfig;
use crate::lod::{halve_n, TileKey};
use crate::text::{decimal, i32_to_decimal, replace_first, replace_first_of, u32_to_decimal};
use ::image::{DynamicImage, ImageReader};
use std::io::Cursor;

pub mod scheduler;

verus! {

/// One tile fetch: anchor-relative identity + absolute provider coordinates
/// at `key.zoom` (the caller resolves the anchor; the source knows nothing
/// about world anchoring).
#[derive(Clone, Copy, Debug, PartialEq, Eq, Structural)]
pub struct TileRequest {
    /// Anchor-relative identity, used for dedup/cancel and echoed in the
    /// payload/drop.
    pub key: TileKey,
    /// Absolute provider tile column at `key.zoom`.
    pub x: i32,
    /// Absolute provider tile row at `key.zoom`.
    pub z: i32,
}

/// A tile that will not arrive. Every request is answered by exactly one
/// payload or one of these.
#[derive(Debug)]
pub enum TileDrop {
    /// The job was cancelled before completing. If the tile is wanted again,
    /// re-request immediately (the camera came back).
    Cancelled(TileKey),
    /// Fetch or decode failed; the string is the reason. Callers should wait
    /// for the next desired-set rebuild rather than hot-retrying a failing
    /// provider.
    Failed(TileKey, String),
}

impl TileDrop {
    /// The key of the tile that will not arrive.
    pub open spec fn spec_key(&self) -> TileKey {
        match self {
            TileDrop::Cancelled(k) => *k,
            TileDrop::Failed(k, _) => *k,
        }
    }

    /// The key of the tile that will not arrive.
    #[verifier::when_used_as_spec(spec_key)]
    pub fn key(&self) -> (k: TileKey)
        ensures
            k == self.spec_key(),
    {
        match self {
            TileDrop::Cancelled(k) => *k,
            TileDrop::Failed(k, _) => *k,
        }
    }
}


/// Which of the three per-tile assets.
#[derive(Clone, Copy, Debug, PartialEq, Eq, Structural)]
pub enum Kind {
    /// Satellite imagery.
    Texture,
    /// Terrarium heightmap.
    Heightmap,
    /// Normal map.
    Normals,
}

impl Kind {
    /// The configured URL template of this asset kind.
    pub open spec fn spec_template(self, cfg: NetworkConfig) -> Seq<char> {
        match self {
            Kind::Texture => cfg.texture_url@,
            Kind::Heightmap => cfg.heightmap_url@,
            Kind::Normals => cfg.normals_url@,
        }
    }

    /// Whether this asset is colour data shown through an sRGB view: the
    /// imagery is; the heightmap and normal map are linear data, which an
    /// sRGB view would gamma-warp.
    pub fn is_srgb(self) -> (b: bool)
        ensures
            b == (self == Kind::Texture),
    {
        match self {
            Kind::Texture => true,
            Kind::Heightmap => false,
            Kind::Normals => false,
        }
    }

    /// The configured URL template of this asset kind.
    pub fn url_template(self, cfg: &NetworkConfig) -> (t: &str)
        ensures
            t@ == self.spec_template(*cfg),
    {
        match self {
            Kind::Texture => cfg.texture_url.as_str(),
            Kind::Heightmap => cfg.heightmap_url.as_str(),
            Kind::Normals => cfg.normals_url.as_str(),
        }
    }
}

/// The failure reason a job reports when it noticed its cancellation
/// between assets.
pub const CANCELLED: &'static str = "\u{0}cancelled";

/// `template` with its first `:zoom:`, then `:x:`, then `:y:` token
/// replaced by the decimal zoom, column and row.
pub open spec fn spec_expand_url(template: Seq<char>, zoom: u8, x: i32, z: i32) -> Seq<char> {
    replace_first(
        replace_first(replace_first(template, ":zoom:"@, decimal(zoom as int)), ":x:"@, decimal(x as int)),
        ":y:"@,
        decimal(z as int),
    )
}

/// Fills a provider URL template: the first `:zoom:`, `:x:` and `:y:`
/// tokens, in that order, become the decimal zoom, column and row.
pub fn expand_url(template: &str, zoom: u8, x: i32, z: i32) -> (url: String)
    ensures
        url@ == spec_expand_url(template@, zoom, x, z),
{
    let zoom_text = u32_to_decimal(zoom as u32);
    let x_text = i32_to_decimal(x);
    let z_text = i32_to_decimal(z);
    let a = replace_first_of(template, ":zoom:", zoom_text.as_str());
    let b = replace_first_of(a.as_str(), ":x:", x_text.as_str());
    replace_first_of(b.as_str(), ":y:", z_text.as_str())
}

/// A decoded image as tightly packed 8-bit channels, row-major.
pub struct RawImage {
    /// Width in pixels.
    pub width: u32,
    /// Height in pixels.
    pub height: u32,
    /// Pixel bytes; at least `channels · width · height` of them.
    pub data: Vec<u8>,
}

/// `image::DynamicImage`, carried opaquely from decoding to conversion.
#[verifier::external_type_specification]
#[verifier::external_body]
pub struct ExDynamicImage(DynamicImage);

/// Calls `image::ImageReader::new(..).with_guessed_format()` and then
/// `ImageReader::decode` on `bytes`. Trusted: an error message starts with
/// `png sniff: ` or `png decode: ` by the step that failed. Whether the
/// bytes decode is not stated: both steps consult format-detection and
/// decoding hooks that any code in the process can register at run time,
/// so the same bytes may fail at one time and decode at another. The
/// decoded pixels are not described.
#[verifier::external_body]
pub fn decode_png(bytes: &[u8]) -> (r: Result<DynamicImage, String>)
    ensures
        r matches Err(e) ==> e@.take(11) == "png sniff: "@ || e@.take(12) == "png decode: "@,
{
    let reader = match ImageReader::new(Cursor::new(bytes)).with_guessed_format() {
        Ok(reader) => reader,
        Err(e) => return Err(format!("png sniff: {e}")),
    };
    match reader.decode() {
        Ok(img) => Ok(img),
        Err(e) => Err(format!("png decode: {e}")),
    }
}

/// Calls `DynamicImage::into_rgba8` and takes the buffer apart
/// (`ImageBuffer::dimensions`, `ImageBuffer::into_raw`). Trusted: an
/// `ImageBuffer` holds at least `4 · width · height` bytes. The dimensions
/// and pixel values are not described: the decoded image is opaque here.
#[verifier::external_body]
fn rgba8_parts(img: DynamicImage) -> (r: RawImage)
    ensures
        4 * r.width * r.height <= r.data@.len(),
{
    let buf = img.into_rgba8();
    let (width, height) = buf.dimensions();
    RawImage { width, height, data: buf.into_raw() }
}

/// Calls `DynamicImage::into_rgb8` and takes the buffer apart
/// (`ImageBuffer::dimensions`, `ImageBuffer::into_raw`). Trusted: an
/// `ImageBuffer` holds at least `3 · width · height` bytes. The dimensions
/// and pixel values are not described: the decoded image is opaque here.
#[verifier::external_body]
fn rgb8_parts(img: DynamicImage) -> (r: RawImage)
    ensures
        3 * r.width * r.height <= r.data@.len(),
{
    let buf = img.into_rgb8();
    let (width, height) = buf.dimensions();
    RawImage { width, height, data: buf.into_raw() }
}

/// Decodes an image file to RGBA8 (the albedo path). Fails when the
/// decoder fails, with its reason.
pub fn decode_rgba(bytes: &[u8]) -> (r: Result<RawImage, String>)
    ensures
        r matches Ok(img) ==> 4 * img.width * img.height <= img.data@.len(),
        r matches Err(e) ==> e@.take(11) == "png sniff: "@ || e@.take(12) == "png decode: "@,
{
    match decode_png(bytes) {
        Ok(img) => Ok(rgba8_parts(img)),
        Err(e) => Err(e),
    }
}

/// Decodes an image file to RGB8 (the heightmap and normal-map path).
/// Fails when the decoder fails, with its reason.
pub fn decode_rgb(bytes: &[u8]) -> (r: Result<RawImage, String>)
    ensures
        r matches Ok(img) ==> 3 * img.width * img.height <= img.data@.len(),
        r matches Err(e) ==> e@.take(11) == "png sniff: "@ || e@.take(12) == "png decode: "@,
{
    match decode_png(bytes) {
        Ok(img) => Ok(rgb8_parts(img)),
        Err(e) => Err(e),
    }
}

/// Bit `shift` of `v`: `(v >> shift) & 1`.
pub open spec fn quadrant_bit(v: int, shift: nat) -> usize {
    (halve_n(v, shift) % 2) as usize
}

/// The quadrants to descend through when synthesizing the heightmap of
/// tile `(zoom, x, z)` from its ancestor at `native` zoom: for each level
/// from `native + 1` up to `zoom`, the `(x, z)` quadrant bits of the tile at
/// that level, `((x >> (zoom − level)) & 1, (z >> (zoom − level)) & 1)`.
pub fn quadrant_chain(native: u8, zoom: u8, x: i32, z: i32) -> (chain: Vec<(usize, usize)>)
    requires
        native < 255,
        native < zoom ==> zoom - native <= 32,
    ensures
        chain@.len() == if native < zoom { zoom - native } else { 0 },
        forall|i: int|
            0 <= i < chain@.len() ==> #[trigger] chain@[i] == (
                quadrant_bit(x as int, (zoom - native - 1 - i) as nat),
                quadrant_bit(z as int, (zoom - native - 1 - i) as nat),
            ),
{
    let mut chain: Vec<(usize, usize)> = Vec::new();
    if native >= zoom {
        return chain;
    }
    let levels = zoom - native;
    // halvings[s] = (x >> s, z >> s) for s < levels
    let mut halvings: Vec<(i32, i32)> = Vec::new();
    let mut hx = x;
    let mut hz = z;
    let mut s: u8 = 0;
    while s < levels
        invariant
            s <= levels,
            halvings@.len() == s,
            hx == halve_n(x as int, s as nat),
            hz == halve_n(z as int, s as nat),
            forall|t: int| 0 <= t < s ==> #[trigger] halvings@[t] == (
                halve_n(x as int, t as nat) as i32,
                halve_n(z as int, t as nat) as i32,
            ),
        decreases levels - s,
    {
        halvings.push((hx, hz));
        proof {
            crate::lod::lemma_halve_step(x as int, s as nat);
            crate::lod::lemma_halve_step(z as int, s as nat);
        }
        hx = crate::lod::halve(hx);
        hz = crate::lod::halve(hz);
        s = s + 1;
    }
    let mut i: u8 = 0;
    while i < levels
        invariant
            levels == zoom - native,
            halvings@.len() == levels,
            i <= levels,
            chain@.len() == i,
            forall|t: int| 0 <= t < levels ==> #[trigger] halvings@[t] == (
                halve_n(x as int, t as nat) as i32,
                halve_n(z as int, t as nat) as i32,
            ),
            forall|t: int|
                0 <= t < i ==> #[trigger] chain@[t] == (
                    quadrant_bit(x as int, (zoom - native - 1 - t) as nat),
                    quadrant_bit(z as int, (zoom - native - 1 - t) as nat),
                ),
        decreases levels - i,
    {
        let shift = (levels - 1 - i) as usize;
        let (qx, qz) = halvings[shift];
        let bx = qx - 2 * crate::lod::halve(qx);
        let bz = qz - 2 * crate::lod::halve(qz);
        proof {
            crate::lod::lemma_halve_step(x as int, shift as nat);
            crate::lod::lemma_halve_step(z as int, shift as nat);
            assert(halvings@[shift as int] == (halve_n(x as int, shift as nat) as i32, halve_n(z as int, shift as nat) as i32));
            assert(qx == halve_n(x as int, shift as nat));
            assert(qz == halve_n(z as int, shift as nat));
            assert(0 <= bx < 2 && bx == qx % 2);
            assert(0 <= bz < 2 && bz == qz % 2);
        }
        chain.push((bx as usize, bz as usize));
        i = i + 1;
    }
    chain
}


/// Coordinate reached from `start` after descending `k` levels along the
/// quadrant bits of `v` for shifts `n − 1, n − 2, …, n − k`.
pub open spec fn descend(start: int, v: int, n: nat, k: nat) -> int
    decreases k,
{
    if k == 0 {
        start
    } else {
        2 * descend(start, v, n, (k - 1) as nat) + quadrant_bit(v, (n - k) as nat) as int
    }
}

/// Synthesis lands on the requested tile: descending from the native
/// ancestor `v >> n` along the quadrant chain, one level per bit, gives
/// back the coordinate `v` itself.
pub proof fn quadrant_chain_reaches_tile(v: int, n: nat)
    ensures
        descend(halve_n(v, n), v, n, n) == v,
{
    lemma_descend(v, n, n);
}

proof fn lemma_descend(v: int, n: nat, k: nat)
    requires
        k <= n,
    ensures
        descend(halve_n(v, n), v, n, k) == halve_n(v, (n - k) as nat),
    decreases k,
{
    if k > 0 {
        lemma_descend(v, n, (k - 1) as nat);
        let m = (n - k) as nat;
        crate::lod::lemma_halve_step(v, m);
        assert(halve_n(v, (m + 1) as nat) == halve_n(v, m) / 2);
        assert(((n - (k - 1)) as nat) == m + 1);
    }
}

} // verus!
