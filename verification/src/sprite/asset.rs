//! Parser for the baked `.sprite` blob: magic `"BSP1"`, `u16` width, `u16`
//! height, `u32` palette entry count, `u32` gfx byte count, then the palette as
//! `u16`s and the gfx. Little-endian throughout.

use crate::bytes::{copy_range, read_u16, read_u16s, read_u32, u16_at, u16s_at, u32_at};
use vstd::prelude::*;

verus! {

/// ASCII `"BSP1"`, low byte first.
pub const MAGIC: u32 = 0x3150_5342;

/// Bytes before the palette.
pub const HEADER_LEN: usize = 16;

/// A baked sprite: dimensions, palette and tile gfx.
pub struct LoadedSprite {
    pub width: u16,
    pub height: u16,
    pub palette: Vec<u16>,
    pub gfx: Vec<u8>,
}

/// Offset of the gfx in a sprite blob.
pub open spec fn sprite_gfx_off(s: Seq<u8>) -> int {
    16 + 2 * u32_at(s, 8)
}

/// Offset of the end of a sprite blob's contents.
pub open spec fn sprite_end(s: Seq<u8>) -> int {
    sprite_gfx_off(s) + u32_at(s, 12)
}

/// `s` starts with a whole sprite blob.
pub open spec fn is_sprite_blob(s: Seq<u8>) -> bool {
    &&& s.len() >= 16
    &&& u32_at(s, 0) == MAGIC
    &&& sprite_end(s) <= s.len()
}

/// Parse a sprite blob; `None` on a short header, a wrong magic or sizes that do
/// not fit.
pub fn parse(bytes: &[u8]) -> (r: Option<LoadedSprite>)
    ensures
        r is Some <==> is_sprite_blob(bytes@),
        r matches Some(t) ==> {
            &&& t.width == u16_at(bytes@, 4)
            &&& t.height == u16_at(bytes@, 6)
            &&& t.palette@ == u16s_at(bytes@, 16, u32_at(bytes@, 8) as nat)
            &&& t.gfx@ == bytes@.subrange(sprite_gfx_off(bytes@), sprite_end(bytes@))
        },
{
    if bytes.len() < HEADER_LEN {
        return None;
    }
    if read_u32(bytes, 0) != MAGIC {
        return None;
    }
    let width: u16 = read_u16(bytes, 4);
    let height: u16 = read_u16(bytes, 6);
    let pal_count: usize = read_u32(bytes, 8) as usize;
    let gfx_count: usize = read_u32(bytes, 12) as usize;

    let pal_off: usize = HEADER_LEN;
    let pal_len: usize = match pal_count.checked_mul(2) {
        Some(n) => n,
        None => return None,
    };
    let gfx_off: usize = match pal_off.checked_add(pal_len) {
        Some(n) => n,
        None => return None,
    };
    let gfx_end: usize = match gfx_off.checked_add(gfx_count) {
        Some(n) => n,
        None => return None,
    };
    if gfx_end > bytes.len() {
        return None;
    }
    let palette: Vec<u16> = read_u16s(bytes, pal_off, pal_count);
    let gfx: Vec<u8> = copy_range(bytes, gfx_off, gfx_end);
    Some(LoadedSprite { width, height, palette, gfx })
}

} // verus!
