//! Packing of values into the words that the geometry engine takes.

use crate::math::fx::Fx32;
use vstd::arithmetic::power2::{lemma2_to64, lemma_pow2_strictly_increases, pow2};
use vstd::bits::lemma_u32_shl_is_mul;
use vstd::prelude::*;

verus! {

/// Don't cull any polygons.
pub const POLY_CULL_NONE: u32 = 0xc0;

/// Cull polygons that face away.
pub const POLY_CULL_BACK: u32 = 0x80;

/// Apply fog to polygons.
pub const POLY_FOG: u32 = 0x8000;

/// Master enable of fog.
pub const GL_FOG: u16 = 0x80;

/// Edge anti-aliasing.
pub const GL_ANTIALIAS: u16 = 0x10;

/// Edge marking.
pub const GL_OUTLINE: u16 = 0x20;

/// Reset value of the depth buffer.
pub const GL_MAX_DEPTH: u16 = 0x7fff;

/// A list of independent triangles.
pub const GL_TRIANGLES: u32 = 0;

/// The projection matrix.
pub const GL_PROJECTION: u32 = 0;

/// The modelview matrix.
pub const GL_MODELVIEW: u32 = 2;

/// Video mode with the 3D core on the main engine.
pub const MODE_0_3D: u32 = 0x1_0108;

/// Power bits of the 3D core and the matrix engine.
pub const POWER_3D: u16 = 0xc;

/// Power-control bit that puts the main engine on the top screen.
pub const POWER_SWAP_LCDS: u16 = 0x8000;

/// Polygon alpha, from bit 16 on.
pub fn poly_alpha(n: u32) -> (r: u32)
    ensures
        r == (n % 0x1_0000) * 0x1_0000,
{
    (n % 0x1_0000) * 0x1_0000
}

/// The bit that turns light `id` on.
pub fn poly_light(id: u32) -> (r: u32)
    requires
        id < 32,
    ensures
        r == pow2(id as nat),
{
    proof {
        lemma2_to64();
        if id < 31 {
            lemma_pow2_strictly_increases(id as nat, 31);
        }
        lemma_u32_shl_is_mul(1, id);
    }
    1u32 << id
}

/// Polygon id, from bit 24 on; only its low six bits count.
pub fn poly_id(n: u32) -> (r: u32)
    ensures
        r == (n % 0x40) * 0x100_0000,
{
    (n % 0x40) * 0x100_0000
}

/// Five bits per channel, red lowest.
pub open spec fn rgb15_word(r: u8, g: u8, b: u8) -> u32 {
    (r / 8 + (g / 8) * 0x20 + (b / 8) * 0x400) as u32
}

/// Pack a colour into five bits per channel.
pub fn rgb15(r: u8, g: u8, b: u8) -> (w: u32)
    ensures
        w == rgb15_word(r, g, b),
        w < 0x8000,
{
    (r / 8) as u32 + (g / 8) as u32 * 0x20 + (b / 8) as u32 * 0x400
}

/// A fixed-point component as a ten-bit signed fraction: nine fractional bits,
/// saturated at one and minus one.
pub open spec fn v10_of(raw: int) -> int {
    if raw >= 0x1000 {
        0x1ff
    } else if raw <= -0x1000 {
        0x200
    } else {
        (raw / 8) % 0x400
    }
}

/// Convert a fixed-point component to a ten-bit signed fraction.
pub fn fx32_to_v10(v: Fx32) -> (r: u32)
    ensures
        r == v10_of(v.0 as int),
        r < 0x400,
{
    if v.0 >= 0x1000 {
        0x1ff
    } else if v.0 <= -0x1000 {
        0x200
    } else {
        let t: u32 = (v.0 + 0x1000) as u32 / 8;
        (t + 0x200) % 0x400
    }
}

/// Three ten-bit components in one word, the first lowest.
pub open spec fn pack10(x: int, y: int, z: int) -> int {
    x + y * 0x400 + z * 0x10_0000
}

/// Pack a fixed-point direction into one word.
pub fn normal_pack_fx(x: Fx32, y: Fx32, z: Fx32) -> (r: u32)
    ensures
        r == pack10(v10_of(x.0 as int), v10_of(y.0 as int), v10_of(z.0 as int)),
        r < 0x4000_0000,
{
    fx32_to_v10(x) + fx32_to_v10(y) * 0x400 + fx32_to_v10(z) * 0x10_0000
}

/// Pack three ten-bit components into one word.
pub fn normal_pack(x: u32, y: u32, z: u32) -> (r: u32)
    requires
        x < 0x400,
        y < 0x400,
        z < 0x400,
    ensures
        r == pack10(x as int, y as int, z as int),
        r < 0x4000_0000,
{
    x + y * 0x400 + z * 0x10_0000
}

/// A signed halfword as the unsigned one with the same bits.
pub open spec fn half_of(v: i16) -> int {
    if v < 0 {
        v + 0x1_0000
    } else {
        v as int
    }
}

/// A signed word as the unsigned one with the same bits.
pub open spec fn word_of(v: i32) -> u32 {
    if v < 0 {
        (v + 0x1_0000_0000) as u32
    } else {
        v as u32
    }
}

/// A signed halfword as the unsigned one with the same bits.
pub fn half(v: i16) -> (r: u32)
    ensures
        r == half_of(v),
        r < 0x1_0000,
{
    if v < 0 {
        (v as i32 + 0x1_0000) as u32
    } else {
        v as u32
    }
}

/// A signed word as the unsigned one with the same bits.
pub fn word(v: i32) -> (r: u32)
    ensures
        r == word_of(v),
{
    if v < 0 {
        (v as i64 + 0x1_0000_0000) as u32
    } else {
        v as u32
    }
}

/// The first word of a vertex: `x` in the low half, `y` in the high half.
pub open spec fn xy_word(x: i16, y: i16) -> u32 {
    (half_of(y) * 0x1_0000 + half_of(x)) as u32
}

/// Pack a position into the two words of a full-precision vertex.
pub fn vertex16(x: i16, y: i16, z: i16) -> (r: (u32, u32))
    ensures
        r.0 == xy_word(x, y),
        r.1 == half_of(z),
{
    (half(y) * 0x1_0000 + half(x), half(z))
}

/// The low ten bits of a component.
fn low10(v: i32) -> (r: u32)
    ensures
        r == v as int % 0x400,
        r < 0x400,
{
    ((v as i64 + 0x8000_0000) % 0x400) as u32
}

/// Pack a position into the word of a compressed vertex: ten bits per component.
pub fn vertex10(x: i32, y: i32, z: i32) -> (r: u32)
    ensures
        r == pack10(x as int % 0x400, y as int % 0x400, z as int % 0x400),
{
    low10(x) + low10(y) * 0x400 + low10(z) * 0x10_0000
}

/// Inclusive pixel bounds, one byte each.
pub open spec fn viewport_value(x1: u8, y1: u8, x2: u8, y2: u8) -> u32 {
    (x1 + y1 * 0x100 + x2 * 0x1_0000 + y2 * 0x100_0000) as u32
}

/// Pack the bounds of a viewport.
pub fn viewport_word(x1: u8, y1: u8, x2: u8, y2: u8) -> (r: u32)
    ensures
        r == viewport_value(x1, y1, x2, y2),
{
    x1 as u32 + y1 as u32 * 0x100 + x2 as u32 * 0x1_0000 + y2 as u32 * 0x100_0000
}

/// A light's number in the top two bits, then what is set of it.
pub open spec fn light_value(id: u32, payload: u32) -> u32 {
    (id * 0x4000_0000 + payload) as u32
}

/// Pack a light's number with its direction or colour.
pub fn light_word(id: u32, payload: u32) -> (r: u32)
    requires
        id < 4,
        payload < 0x4000_0000,
    ensures
        r == light_value(id, payload),
{
    id * 0x4000_0000 + payload
}

/// Diffuse colour low, ambient colour high, and the flag that seeds the vertex
/// colour.
pub open spec fn material_value(diffuse: u32, ambient: u32, set_vertex_color: bool) -> u32 {
    (diffuse + if set_vertex_color {
        0x8000int
    } else {
        0
    } + ambient * 0x1_0000) as u32
}

/// Pack the colours of a material.
pub fn material_word(diffuse: u32, ambient: u32, set_vertex_color: bool) -> (r: u32)
    requires
        diffuse < 0x8000,
        ambient < 0x8000,
    ensures
        r == material_value(diffuse, ambient, set_vertex_color),
{
    let flag: u32 = if set_vertex_color {
        0x8000
    } else {
        0
    };
    diffuse + flag + ambient * 0x1_0000
}

/// The fog colour: five bits per channel, then alpha from bit 16 on.
pub fn fog_color(r: u8, g: u8, b: u8, a: u8) -> (w: u32)
    requires
        r < 32,
        g < 32,
        b < 32,
    ensures
        w == r + g * 0x20 + b * 0x400 + a * 0x1_0000,
{
    rgb15(r * 8, g * 8, b * 8) + a as u32 * 0x1_0000
}

/// The 3D control register with another fog shift in its bits 8 to 11.
pub fn fog_control(control: u16, shift: u16) -> (r: u16)
    ensures
        r == control - ((control / 0x100) % 0x10) * 0x100 + (shift % 0x10) * 0x100,
        r / 0x1000 == control / 0x1000,
        (r / 0x100) % 0x10 == shift % 0x10,
        r % 0x100 == control % 0x100,
{
    control - ((control / 0x100) % 0x10) * 0x100 + (shift % 0x10) * 0x100
}

/// A register with bits turned on.
pub fn enable(control: u16, bits: u16) -> (r: u16)
    ensures
        r == control | bits,
{
    control | bits
}

/// A register with bits turned off.
pub fn disable(control: u16, bits: u16) -> (r: u16)
    ensures
        r == control & !bits,
{
    control & !bits
}

/// The power register with the main engine on the top screen or not.
pub fn main_lcd(power: u16, on_top: bool) -> (r: u16)
    ensures
        r % 0x8000 == power % 0x8000,
        (r >= 0x8000) == on_top,
{
    if on_top {
        power % 0x8000 + 0x8000
    } else {
        power % 0x8000
    }
}

/// The fog density ramp: from clear to opaque in 32 even steps.
pub fn fog_density() -> (r: [u8; 32])
    ensures
        forall|i: int| 0 <= i < 32 ==> #[trigger] r@[i] == (i * 127) / 31,
{
    let mut density: [u8; 32] = [0;32];
    let mut i: usize = 0;
    while i < 32
        invariant
            i <= 32,
            forall|k: int| 0 <= k < i ==> #[trigger] density@[k] == (k * 127) / 31,
        decreases 32 - i,
    {
        density[i] = ((i * 127) / 31) as u8;
        i = i + 1;
    }
    density
}

/// Saturation keeps a packed direction a unit: one and minus one are the largest
/// and smallest ten-bit fractions.
pub proof fn law_v10_saturates(raw: int)
    ensures
        0 <= v10_of(raw) < 0x400,
        raw >= 0x1000 ==> v10_of(raw) == 0x1ff,
        raw <= -0x1000 ==> v10_of(raw) == 0x200,
        -0x1000 < raw < 0 ==> v10_of(raw) >= 0x200,
        0 <= raw < 0x1000 ==> v10_of(raw) < 0x200,
{
}

/// Each component can be read back from a packed word.
pub proof fn law_pack10_keeps_its_components(x: int, y: int, z: int)
    requires
        0 <= x < 0x400,
        0 <= y < 0x400,
        0 <= z < 0x400,
    ensures
        pack10(x, y, z) % 0x400 == x,
        (pack10(x, y, z) / 0x400) % 0x400 == y,
        (pack10(x, y, z) / 0x10_0000) % 0x400 == z,
{
}

} // verus!
