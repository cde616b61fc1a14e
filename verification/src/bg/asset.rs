//! Parsers for the baked `.bg` (tile) and `.bbg` (bitmap) background blobs.
//!
//! Tile layout, little-endian: magic `"BTB1"`, then three `u32` counts (palette
//! entries, gfx bytes, map bytes), then the palette as `u16`s, the gfx and the
//! map. Bitmap layout: magic `"BBB1"`, `u16` width, `u16` height, `u32` pixel
//! count, then the pixels as `u16`s.

use crate::bytes::{copy_range, read_u16, read_u16s, read_u32, u16_at, u16s_at, u32_at};
use vstd::prelude::*;

verus! {

/// ASCII `"BTB1"`, low byte first.
pub const TILE_MAGIC: u32 = 0x3142_5442;

/// Bytes before the palette of a tile blob.
pub const TILE_HEADER_LEN: usize = 16;

/// ASCII `"BBB1"`, low byte first.
pub const BITMAP_MAGIC: u32 = 0x3142_4242;

/// Bytes before the pixels of a bitmap blob.
pub const BITMAP_HEADER_LEN: usize = 12;

/// A tile background: palette, tile gfx and tile map.
pub struct LoadedTile {
    pub palette: Vec<u16>,
    pub gfx: Vec<u8>,
    pub map: Vec<u8>,
}

/// A bitmap background. Its height is `pixels.len() / width`.
pub struct LoadedBitmap {
    pub width: u16,
    pub pixels: Vec<u16>,
}

/// Offset of the gfx in a tile blob.
pub open spec fn tile_gfx_off(s: Seq<u8>) -> int {
    16 + 2 * u32_at(s, 4)
}

/// Offset of the map in a tile blob.
pub open spec fn tile_map_off(s: Seq<u8>) -> int {
    tile_gfx_off(s) + u32_at(s, 8)
}

/// Offset of the end of a tile blob's contents.
pub open spec fn tile_end(s: Seq<u8>) -> int {
    tile_map_off(s) + u32_at(s, 12)
}

/// `s` starts with a whole tile blob.
pub open spec fn is_tile_blob(s: Seq<u8>) -> bool {
    &&& s.len() >= 16
    &&& u32_at(s, 0) == TILE_MAGIC
    &&& tile_end(s) <= s.len()
}

/// `s` starts with a whole bitmap blob whose dimensions match its pixel count.
pub open spec fn is_bitmap_blob(s: Seq<u8>) -> bool {
    &&& s.len() >= 12
    &&& u32_at(s, 0) == BITMAP_MAGIC
    &&& 12 + 2 * u32_at(s, 8) <= s.len()
    &&& u32_at(s, 8) == u16_at(s, 4) * u16_at(s, 6)
}

/// Parse a tile blob; `None` on a short header, a wrong magic or sizes that do
/// not fit.
pub fn parse_tile(bytes: &[u8]) -> (r: Option<LoadedTile>)
    ensures
        r is Some <==> is_tile_blob(bytes@),
        r matches Some(t) ==> {
            &&& t.palette@ == u16s_at(bytes@, 16, u32_at(bytes@, 4) as nat)
            &&& t.gfx@ == bytes@.subrange(tile_gfx_off(bytes@), tile_map_off(bytes@))
            &&& t.map@ == bytes@.subrange(tile_map_off(bytes@), tile_end(bytes@))
        },
{
    if bytes.len() < TILE_HEADER_LEN {
        return None;
    }
    if read_u32(bytes, 0) != TILE_MAGIC {
        return None;
    }
    let pal_count: usize = read_u32(bytes, 4) as usize;
    let gfx_count: usize = read_u32(bytes, 8) as usize;
    let map_count: usize = read_u32(bytes, 12) as usize;

    let pal_off: usize = TILE_HEADER_LEN;
    let pal_len: usize = match pal_count.checked_mul(2) {
        Some(n) => n,
        None => return None,
    };
    let gfx_off: usize = match pal_off.checked_add(pal_len) {
        Some(n) => n,
        None => return None,
    };
    let map_off: usize = match gfx_off.checked_add(gfx_count) {
        Some(n) => n,
        None => return None,
    };
    let map_end: usize = match map_off.checked_add(map_count) {
        Some(n) => n,
        None => return None,
    };
    if map_end > bytes.len() {
        return None;
    }
    let palette: Vec<u16> = read_u16s(bytes, pal_off, pal_count);
    let gfx: Vec<u8> = copy_range(bytes, gfx_off, map_off);
    let map: Vec<u8> = copy_range(bytes, map_off, map_end);
    Some(LoadedTile { palette, gfx, map })
}

/// Parse a bitmap blob; `None` on a short header, a wrong magic, sizes that do
/// not fit, or dimensions that do not match the pixel count.
pub fn parse_bitmap(bytes: &[u8]) -> (r: Option<LoadedBitmap>)
    ensures
        r is Some <==> is_bitmap_blob(bytes@),
        r matches Some(b) ==> {
            &&& b.width == u16_at(bytes@, 4)
            &&& b.pixels@ == u16s_at(bytes@, 12, u32_at(bytes@, 8) as nat)
            &&& b.pixels.len() == b.width * u16_at(bytes@, 6)
        },
{
    if bytes.len() < BITMAP_HEADER_LEN {
        return None;
    }
    if read_u32(bytes, 0) != BITMAP_MAGIC {
        return None;
    }
    let width: u16 = read_u16(bytes, 4);
    let height: u16 = read_u16(bytes, 6);
    let pixel_count: usize = read_u32(bytes, 8) as usize;

    let off: usize = BITMAP_HEADER_LEN;
    let len: usize = match pixel_count.checked_mul(2) {
        Some(n) => n,
        None => return None,
    };
    let end: usize = match off.checked_add(len) {
        Some(n) => n,
        None => return None,
    };
    if end > bytes.len() {
        return None;
    }
    assert(width * height <= 0xFFFF * 0xFFFF) by (nonlinear_arith)
        requires
            width <= 0xFFFF,
            height <= 0xFFFF,
    ;
    if pixel_count as u64 != width as u64 * height as u64 {
        return None;
    }
    let pixels: Vec<u16> = read_u16s(bytes, off, pixel_count);
    Some(LoadedBitmap { width, pixels })
}

} // verus!
