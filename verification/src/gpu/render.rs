//! The commands that set up the 3D engine, draw a frame and pick under the pen.
//!
//! Each function gives the commands in the order in which they are issued; what the
//! hardware answers comes back as plain values.

use crate::float::F32Bits;
use crate::gpu::mesh::{splat, DsMaterial, Vec3};
use crate::gpu::words::{
    fog_color, fog_density, half_of, light_value, light_word, material_value, material_word,
    normal_pack_fx, pack10, poly_alpha, rgb15, rgb15_word, v10_of, vertex16, viewport_value,
    viewport_word, word, word_of, xy_word, GL_ANTIALIAS, GL_FOG, GL_MAX_DEPTH, GL_MODELVIEW,
    GL_OUTLINE, GL_PROJECTION, GL_TRIANGLES, MODE_0_3D, POLY_CULL_BACK, POLY_CULL_NONE, POLY_FOG, POWER_3D,
};
use crate::math::fx::Fx32;
use crate::math::fx_vec::{length_raw, length_sq3, unit_component, FxVec3};
use crate::math::mat::{model_entry, model_matrix};
use vstd::prelude::*;

verus! {

pub const REG_DISPCNT: u32 = 0x0400_0000;

pub const REG_POWERCNT: u32 = 0x0400_0304;

pub const GFX_CONTROL: u32 = 0x0400_0060;

pub const GFX_EDGE_TABLE: u32 = 0x0400_0330;

pub const GFX_CLEAR_DEPTH: u32 = 0x0400_0354;

pub const GFX_FOG_COLOR: u32 = 0x0400_0358;

pub const GFX_FOG_OFFSET: u32 = 0x0400_035c;

pub const GFX_FOG_TABLE: u32 = 0x0400_0360;

pub const MATRIX_CONTROL: u32 = 0x0400_0440;

pub const MATRIX_PUSH: u32 = 0x0400_0444;

pub const MATRIX_POP: u32 = 0x0400_0448;

pub const MATRIX_IDENTITY: u32 = 0x0400_0454;

pub const MATRIX_MULT_4X4: u32 = 0x0400_0460;

pub const MATRIX_TRANSLATE: u32 = 0x0400_0470;

pub const GFX_COLOR: u32 = 0x0400_0480;

pub const GFX_NORMAL: u32 = 0x0400_0484;

pub const GFX_VERTEX16: u32 = 0x0400_048c;

pub const GFX_POLY_FORMAT: u32 = 0x0400_04a4;

pub const GFX_DIFFUSE_AMBIENT: u32 = 0x0400_04c0;

pub const GFX_SPECULAR_EMISSION: u32 = 0x0400_04c4;

pub const GFX_LIGHT_VECTOR: u32 = 0x0400_04c8;

pub const GFX_LIGHT_COLOR: u32 = 0x0400_04cc;

pub const GFX_BEGIN: u32 = 0x0400_0500;

pub const GFX_END: u32 = 0x0400_0504;

pub const GFX_FLUSH: u32 = 0x0400_0540;

pub const GFX_VIEWPORT: u32 = 0x0400_0580;

pub const GFX_POS_TEST: u32 = 0x0400_05c4;

/// Fog shift: how deep one entry of the density table reaches.
pub const FOG_SHIFT: u16 = 6;

/// Depth at which fog begins.
pub const FOG_OFFSET: u32 = 0x7e00;

/// Side of the square that is sampled under the pen.
pub const PICK_BOX: i32 = 4;

/// One step for the 3D engine.
#[derive(Clone, Copy, Debug, PartialEq, Eq, Structural)]
pub enum Gpu {
    /// Write a word to a register.
    Write { reg: u32, value: u32 },
    /// Write a halfword to a register.
    WriteHalf { reg: u32, value: u16 },
    /// Write a byte to a register.
    WriteByte { reg: u32, value: u8 },
    /// Turn bits of a halfword register on.
    SetBits { reg: u32, bits: u16 },
    /// Turn bits of a halfword register off.
    ClearBits { reg: u32, bits: u16 },
    /// Put a fog shift into the control register.
    FogShift { shift: u16 },
    /// Reset the engine.
    Init,
    /// Set the colour behind everything.
    ClearColor { r: u8, g: u8, b: u8, a: u8 },
    /// Apply fog to what is behind everything.
    ClearFog,
    /// Set the polygon id of what is behind everything.
    ClearPolyId { id: u8 },
    /// Load a perspective projection.
    Perspective { fovy: i32, aspect: i32, near: i32, far: i32 },
    /// Restrict the projection to a box of the full screen.
    PickMatrix { x: i32, y: i32, width: i32, height: i32 },
    /// Run the display list of a mesh.
    CallList { mesh: usize },
    /// Wait until tests and drawing are done.
    WaitIdle,
    /// Note how many polygons have been drawn.
    CountPolygons,
}

/// A word written to a register.
pub open spec fn put(reg: u32, value: u32) -> Gpu {
    Gpu::Write { reg, value }
}

/// The full screen as a viewport.
pub open spec fn full_screen() -> Gpu {
    put(GFX_VIEWPORT, viewport_value(0, 0, 255, 191))
}

/// The density table, one byte after the other.
pub open spec fn fog_table() -> Seq<Gpu> {
    Seq::new(
        32,
        |i: int|
            Gpu::WriteByte { reg: (GFX_FOG_TABLE + i) as u32, value: ((i * 127) / 31) as u8 },
    )
}

/// The steps that bring the engine up: power, video mode, clear colour and depth,
/// viewport, anti-aliasing and depth fog.
pub open spec fn init_commands() -> Seq<Gpu> {
    seq![
        Gpu::SetBits { reg: REG_POWERCNT, bits: POWER_3D },
        put(REG_DISPCNT, MODE_0_3D),
        Gpu::Init,
        Gpu::ClearColor { r: 2, g: 2, b: 6, a: 31 },
        Gpu::WriteHalf { reg: GFX_CLEAR_DEPTH, value: GL_MAX_DEPTH },
        full_screen(),
        Gpu::SetBits { reg: GFX_CONTROL, bits: GL_ANTIALIAS },
        Gpu::ClearFog,
        put(GFX_FOG_COLOR, 0x1f_1842),
        put(GFX_FOG_OFFSET, FOG_OFFSET),
        Gpu::FogShift { shift: FOG_SHIFT },
    ] + fog_table() + seq![Gpu::SetBits { reg: GFX_CONTROL, bits: GL_FOG }]
}

/// The steps that bring the engine up.
pub fn init_3d() -> (r: Vec<Gpu>)
    ensures
        r@ == init_commands(),
{
    let mut out: Vec<Gpu> = Vec::new();
    out.push(Gpu::SetBits { reg: REG_POWERCNT, bits: POWER_3D });
    out.push(Gpu::Write { reg: REG_DISPCNT, value: MODE_0_3D });
    out.push(Gpu::Init);
    out.push(Gpu::ClearColor { r: 2, g: 2, b: 6, a: 31 });
    out.push(Gpu::WriteHalf { reg: GFX_CLEAR_DEPTH, value: GL_MAX_DEPTH });
    out.push(Gpu::Write { reg: GFX_VIEWPORT, value: viewport_word(0, 0, 255, 191) });
    out.push(Gpu::SetBits { reg: GFX_CONTROL, bits: GL_ANTIALIAS });
    out.push(Gpu::ClearFog);
    out.push(Gpu::Write { reg: GFX_FOG_COLOR, value: fog_color(2, 2, 6, 31) });
    out.push(Gpu::Write { reg: GFX_FOG_OFFSET, value: FOG_OFFSET });
    out.push(Gpu::FogShift { shift: FOG_SHIFT });
    let ghost head = out@;
    let density: [u8; 32] = fog_density();
    let mut i: usize = 0;
    assert(out@ =~= head + fog_table().take(0));
    while i < 32
        invariant
            i <= 32,
            forall|k: int| 0 <= k < 32 ==> #[trigger] density@[k] == (k * 127) / 31,
            out@ == head + fog_table().take(i as int),
        decreases 32 - i,
    {
        out.push(Gpu::WriteByte { reg: GFX_FOG_TABLE + i as u32, value: density[i] });
        assert(out@ =~= head + fog_table().take(i + 1));
        i = i + 1;
    }
    assert(fog_table().take(32) =~= fog_table());
    out.push(Gpu::SetBits { reg: GFX_CONTROL, bits: GL_FOG });
    assert(out@ =~= init_commands());
    out
}

/// A style bit of the engine turned on or off.
pub open spec fn style(bits: u16, on: bool) -> Gpu {
    if on {
        Gpu::SetBits { reg: GFX_CONTROL, bits }
    } else {
        Gpu::ClearBits { reg: GFX_CONTROL, bits }
    }
}

/// Smooth the edges of polygons, or do not.
pub fn set_antialias(on: bool) -> (r: Gpu)
    ensures
        r == style(GL_ANTIALIAS, on),
{
    if on {
        Gpu::SetBits { reg: GFX_CONTROL, bits: GL_ANTIALIAS }
    } else {
        Gpu::ClearBits { reg: GFX_CONTROL, bits: GL_ANTIALIAS }
    }
}

/// One outline colour for the polygons of every id.
pub open spec fn edge_table(color: u32) -> Seq<Gpu> {
    Seq::new(
        8,
        |i: int|
            Gpu::WriteHalf {
                reg: (GFX_EDGE_TABLE + 2 * i) as u32,
                value: (color % 0x1_0000) as u16,
            },
    )
}

/// Outline polygons in a colour, or do not.
pub fn set_outline(on: bool, color: u32) -> (r: Vec<Gpu>)
    ensures
        on ==> r@ == edge_table(color).push(style(GL_OUTLINE, true)),
        !on ==> r@ == seq![style(GL_OUTLINE, false)],
{
    let mut out: Vec<Gpu> = Vec::new();
    if on {
        let mut i: usize = 0;
        assert(out@ =~= edge_table(color).take(0));
        while i < 8
            invariant
                i <= 8,
                out@ == edge_table(color).take(i as int),
            decreases 8 - i,
        {
            let value: u16 = (color % 0x1_0000) as u16;
            out.push(Gpu::WriteHalf { reg: GFX_EDGE_TABLE + 2 * i as u32, value });
            assert(out@ =~= edge_table(color).take(i + 1));
            i = i + 1;
        }
        assert(edge_table(color).take(8) =~= edge_table(color));
        out.push(Gpu::SetBits { reg: GFX_CONTROL, bits: GL_OUTLINE });
    } else {
        out.push(Gpu::ClearBits { reg: GFX_CONTROL, bits: GL_OUTLINE });
        assert(out@ =~= seq![style(GL_OUTLINE, false)]);
    }
    out
}

/// Give what is behind everything a polygon id, so that it is outlined against.
pub fn set_clear_poly_id(id: u8) -> (r: Gpu)
    ensures
        r == (Gpu::ClearPolyId { id }),
{
    Gpu::ClearPolyId { id }
}

/// The steps that apply a matrix.
pub open spec fn mult_matrix(m: Seq<i32>) -> Seq<Gpu> {
    Seq::new(m.len(), |i: int| put(MATRIX_MULT_4X4, word_of(m[i])))
}

/// Append the steps that apply a matrix.
fn push_matrix(out: &mut Vec<Gpu>, m: &[i32; 16])
    ensures
        final(out)@ == old(out)@ + mult_matrix(m@),
{
    let ghost start = out@;
    let mut i: usize = 0;
    assert(out@ =~= start + mult_matrix(m@).take(0));
    while i < 16
        invariant
            i <= 16,
            out@ == start + mult_matrix(m@).take(i as int),
        decreases 16 - i,
    {
        out.push(Gpu::Write { reg: MATRIX_MULT_4X4, value: word(m[i]) });
        assert(out@ =~= start + mult_matrix(m@).take(i + 1));
        i = i + 1;
    }
    assert(mult_matrix(m@).take(16) =~= mult_matrix(m@));
}

/// An angle brought into one circle of 32768 units.
pub fn reduce_angle(angle: i32) -> (r: i16)
    ensures
        r == angle as int % 0x8000,
{
    ((angle as i64 + 0x8000_0000) % 0x8000) as i16
}

/// The inverse camera rotation, of the sine and cosine of the negated pitch and yaw.
pub fn view_rotation(pitch: (Fx32, Fx32), yaw: (Fx32, Fx32)) -> (m: [i32; 16])
    ensures
        forall|row: int, col: int|
            0 <= row < 4 && 0 <= col < 4 ==> #[trigger] m@[4 * col + row] == model_entry(
                FxVec3 { x: Fx32(0), y: Fx32(0), z: Fx32(0) },
                seq![pitch, yaw, (Fx32(0), Fx32(4096))],
                FxVec3 { x: Fx32(4096), y: Fx32(4096), z: Fx32(4096) },
                row,
                col,
            ),
{
    let sincos: [(Fx32, Fx32); 3] = [pitch, yaw, (Fx32(0), Fx32(4096))];
    assert(sincos@ =~= seq![pitch, yaw, (Fx32(0), Fx32(4096))]);
    model_matrix(
        FxVec3 { x: Fx32(0), y: Fx32(0), z: Fx32(0) },
        sincos,
        FxVec3 { x: Fx32(4096), y: Fx32(4096), z: Fx32(4096) },
    )
}

/// What a frame is seen through, in the engine's number formats.
#[derive(Clone, Copy)]
pub struct FrameView {
    /// Field of view in angle units.
    pub fovy: i32,
    pub aspect: i32,
    pub near: i32,
    pub far: i32,
    /// The inverse camera rotation.
    pub rotation: [i32; 16],
    /// The negated camera position.
    pub offset: [i32; 3],
}

/// The steps that set the view.
pub open spec fn view_commands(v: FrameView) -> Seq<Gpu> {
    seq![put(MATRIX_CONTROL, GL_MODELVIEW), put(MATRIX_IDENTITY, 0)] + mult_matrix(v.rotation@)
        + seq![
        put(MATRIX_TRANSLATE, word_of(v.offset@[0])),
        put(MATRIX_TRANSLATE, word_of(v.offset@[1])),
        put(MATRIX_TRANSLATE, word_of(v.offset@[2])),
    ]
}

/// Append the steps that set the view.
fn push_view(out: &mut Vec<Gpu>, v: &FrameView)
    ensures
        final(out)@ == old(out)@ + view_commands(*v),
{
    out.push(Gpu::Write { reg: MATRIX_CONTROL, value: GL_MODELVIEW });
    out.push(Gpu::Write { reg: MATRIX_IDENTITY, value: 0 });
    push_matrix(out, &v.rotation);
    out.push(Gpu::Write { reg: MATRIX_TRANSLATE, value: word(v.offset[0]) });
    out.push(Gpu::Write { reg: MATRIX_TRANSLATE, value: word(v.offset[1]) });
    out.push(Gpu::Write { reg: MATRIX_TRANSLATE, value: word(v.offset[2]) });
    assert(out@ =~= old(out)@ + view_commands(*v));
}

/// The projection step of a view.
pub open spec fn perspective(v: FrameView) -> Gpu {
    Gpu::Perspective { fovy: v.fovy, aspect: v.aspect, near: v.near, far: v.far }
}

/// A directional light in fixed-point.
#[derive(Clone, Copy)]
pub struct FrameLight {
    pub direction: FxVec3,
    pub color: [u8; 3],
}

/// A direction packed after it was brought to unit length.
pub open spec fn packed_direction(d: FxVec3) -> u32 {
    let len = length_raw(length_sq3(d));
    pack10(
        v10_of(unit_component(d.x.0 as int, len)),
        v10_of(unit_component(d.y.0 as int, len)),
        v10_of(unit_component(d.z.0 as int, len)),
    ) as u32
}

/// The steps that set the first `n` lights.
pub open spec fn light_commands(lights: Seq<Option<FrameLight>>, n: nat) -> Seq<Gpu>
    decreases n,
{
    if n == 0 {
        Seq::empty()
    } else {
        let rest = light_commands(lights, (n - 1) as nat);
        match lights[n - 1] {
            None => rest,
            Some(l) => rest + seq![
                put(GFX_LIGHT_VECTOR, light_value((n - 1) as u32, packed_direction(l.direction))),
                put(
                    GFX_LIGHT_COLOR,
                    light_value((n - 1) as u32, rgb15_word(l.color@[0], l.color@[1], l.color@[2])),
                ),
            ],
        }
    }
}

/// The weight of light `i` in the mask.
pub open spec fn light_bit(i: int) -> int {
    if i == 0 {
        1
    } else if i == 1 {
        2
    } else if i == 2 {
        4
    } else {
        8
    }
}

/// Which of the first `n` lights are on, one bit each.
pub open spec fn light_mask(lights: Seq<Option<FrameLight>>, n: nat) -> int
    decreases n,
{
    if n == 0 {
        0
    } else {
        light_mask(lights, (n - 1) as nat) + if lights[n - 1] is Some {
            light_bit(n - 1)
        } else {
            0
        }
    }
}

/// Append the steps that set the lights; gives the mask of those that are on.
fn push_lights(out: &mut Vec<Gpu>, lights: &[Option<FrameLight>; 4]) -> (mask: u32)
    ensures
        final(out)@ == old(out)@ + light_commands(lights@, 4),
        mask == light_mask(lights@, 4),
        mask < 16,
{
    let ghost start = out@;
    let mut mask: u32 = 0;
    let mut i: usize = 0;
    assert(out@ =~= start + light_commands(lights@, 0));
    while i < 4
        invariant
            i <= 4,
            out@ == start + light_commands(lights@, i as nat),
            mask == light_mask(lights@, i as nat),
            i == 0 ==> mask == 0,
            i == 1 ==> mask < 2,
            i == 2 ==> mask < 4,
            i == 3 ==> mask < 8,
            i == 4 ==> mask < 16,
        decreases 4 - i,
    {
        if let Some(l) = lights[i] {
            let d: FxVec3 = l.direction.normalize_or_zero();
            let dir: u32 = normal_pack_fx(d.x, d.y, d.z);
            let color: u32 = rgb15(l.color[0], l.color[1], l.color[2]);
            out.push(Gpu::Write { reg: GFX_LIGHT_VECTOR, value: light_word(i as u32, dir) });
            out.push(Gpu::Write { reg: GFX_LIGHT_COLOR, value: light_word(i as u32, color) });
            let bit: u32 = if i == 0 {
                1
            } else if i == 1 {
                2
            } else if i == 2 {
                4
            } else {
                8
            };
            mask = mask + bit;
            assert(dir == packed_direction(l.direction));
        }
        assert(out@ =~= start + light_commands(lights@, (i + 1) as nat));
        i = i + 1;
    }
    mask
}

/// A vertex in the engine's number formats.
#[derive(Clone, Copy)]
pub struct DrawVertex {
    pub pos: [i16; 3],
    /// The packed normal.
    pub normal: u32,
    pub color: [u8; 3],
}

/// The composed draw state of a mesh, kept until its placement changes.
#[derive(Clone, Copy)]
pub struct MeshDraw {
    /// Column-major model matrix.
    pub model: [i32; 16],
    /// Bounds in the world, where there are any.
    pub world_min: Vec3,
    pub world_max: Vec3,
    pub has_bounds: bool,
}

impl Default for MeshDraw {
    /// The identity, without bounds.
    fn default() -> (r: Self)
        ensures
            forall|row: int, col: int|
                0 <= row < 4 && 0 <= col < 4 ==> #[trigger] r.model@[4 * col + row] == (if row
                    == col {
                    4096int
                } else {
                    0
                }),
            r.world_min@ == splat(0),
            r.world_max@ == splat(0),
            !r.has_bounds,
    {
        let z = F32Bits::zero();
        let zero: Vec3 = [z, z, z];
        assert(zero@ =~= splat(0));
        MeshDraw {
            model: [4096, 0, 0, 0, 0, 4096, 0, 0, 0, 0, 4096, 0, 0, 0, 0, 4096],
            world_min: zero,
            world_max: zero,
            has_bounds: false,
        }
    }
}

/// The placement of a mesh in fixed-point, with the sine and cosine of its angles.
#[derive(Clone, Copy)]
pub struct Placed {
    pub translation: FxVec3,
    pub sincos: [(Fx32, Fx32); 3],
    pub scale: FxVec3,
}

/// The draw state after the placement or the mesh changed, or neither: the model matrix
/// of the placement, and the bounds in the world if there are any.
pub open spec fn redrawn(
    before: MeshDraw,
    after: MeshDraw,
    transform_changed: bool,
    mesh_changed: bool,
    placed: Placed,
    bounds: Option<(Vec3, Vec3)>,
) -> bool {
    &&& !transform_changed && !mesh_changed ==> after == before
    &&& transform_changed || mesh_changed ==> {
        &&& forall|row: int, col: int|
            0 <= row < 4 && 0 <= col < 4 ==> #[trigger] after.model@[4 * col + row] == model_entry(
                placed.translation,
                placed.sincos@,
                placed.scale,
                row,
                col,
            )
        &&& after.has_bounds == bounds is Some
        &&& bounds matches Some((lo, hi)) ==> after.world_min == lo && after.world_max == hi
        &&& bounds is None ==> after.world_min == before.world_min && after.world_max
            == before.world_max
    }
}

impl MeshDraw {
    /// Recompose the draw state where the placement or the mesh changed: the model
    /// matrix, and the bounds in the world if the mesh has bounds.
    pub fn recompute(
        &mut self,
        transform_changed: bool,
        mesh_changed: bool,
        placed: &Placed,
        bounds: Option<(Vec3, Vec3)>,
    )
        ensures
            redrawn(
                *old(self),
                *final(self),
                transform_changed,
                mesh_changed,
                *placed,
                bounds,
            ),
    {
        if !transform_changed && !mesh_changed {
            return;
        }
        self.model = model_matrix(placed.translation, placed.sincos, placed.scale);
        match bounds {
            Some((lo, hi)) => {
                self.world_min = lo;
                self.world_max = hi;
                self.has_bounds = true;
            },
            None => {
                self.has_bounds = false;
            },
        }
    }
}

/// A mesh to draw.
pub struct DrawItem {
    pub draw: MeshDraw,
    /// Do its bounds meet what the camera sees?
    pub visible: bool,
    /// Is it within the render range?
    pub in_range: bool,
    pub lit: bool,
    /// Has it a display list?
    pub baked: bool,
    pub material: Option<DsMaterial>,
    pub tris: Vec<[DrawVertex; 3]>,
}

/// A bounded mesh that is out of sight or out of range is not drawn; one without
/// bounds always is.
pub open spec fn drawn(item: DrawItem) -> bool {
    !item.draw.has_bounds || (item.visible && item.in_range)
}

/// The two words of a vertex.
pub open spec fn vertex_commands(v: DrawVertex) -> Seq<Gpu> {
    seq![
        put(GFX_VERTEX16, xy_word(v.pos@[0], v.pos@[1])),
        put(GFX_VERTEX16, half_of(v.pos@[2]) as u32),
    ]
}

/// What goes before a vertex.
#[derive(Clone, Copy, PartialEq, Eq, Structural)]
pub enum Attribute {
    Normal,
    Color,
    Bare,
}

/// The steps for one vertex with its attribute.
pub open spec fn attributed(v: DrawVertex, a: Attribute) -> Seq<Gpu> {
    match a {
        Attribute::Normal => seq![put(GFX_NORMAL, v.normal)] + vertex_commands(v),
        Attribute::Color => seq![
            put(GFX_COLOR, rgb15_word(v.color@[0], v.color@[1], v.color@[2])),
        ] + vertex_commands(v),
        Attribute::Bare => vertex_commands(v),
    }
}

/// The steps for a triangle.
pub open spec fn tri_commands(t: Seq<DrawVertex>, a: Attribute) -> Seq<Gpu> {
    attributed(t[0], a) + attributed(t[1], a) + attributed(t[2], a)
}

/// The steps for several triangles.
pub open spec fn tris_commands(v: Seq<[DrawVertex; 3]>, a: Attribute) -> Seq<Gpu>
    decreases v.len(),
{
    if v.len() == 0 {
        Seq::empty()
    } else {
        tris_commands(v.drop_last(), a) + tri_commands(v.last()@, a)
    }
}

/// A primitive of triangles.
pub open spec fn primitive(v: Seq<[DrawVertex; 3]>, a: Attribute) -> Seq<Gpu> {
    seq![put(GFX_BEGIN, GL_TRIANGLES)] + tris_commands(v, a) + seq![put(GFX_END, 0)]
}

/// Append the steps for one vertex.
fn push_vertex(out: &mut Vec<Gpu>, v: &DrawVertex, a: Attribute)
    ensures
        final(out)@ == old(out)@ + attributed(*v, a),
{
    match a {
        Attribute::Normal => {
            out.push(Gpu::Write { reg: GFX_NORMAL, value: v.normal });
        },
        Attribute::Color => {
            out.push(
                Gpu::Write { reg: GFX_COLOR, value: rgb15(v.color[0], v.color[1], v.color[2]) },
            );
        },
        Attribute::Bare => {},
    }
    let (xy, z) = vertex16(v.pos[0], v.pos[1], v.pos[2]);
    out.push(Gpu::Write { reg: GFX_VERTEX16, value: xy });
    out.push(Gpu::Write { reg: GFX_VERTEX16, value: z });
    assert(out@ =~= old(out)@ + attributed(*v, a));
}

/// Append a primitive of triangles.
fn push_primitive(out: &mut Vec<Gpu>, tris: &Vec<[DrawVertex; 3]>, a: Attribute)
    ensures
        final(out)@ == old(out)@ + primitive(tris@, a),
{
    let ghost start = out@;
    out.push(Gpu::Write { reg: GFX_BEGIN, value: GL_TRIANGLES });
    let ghost head = out@;
    let mut i: usize = 0;
    assert(tris@.take(0) =~= Seq::empty());
    assert(out@ =~= head + tris_commands(tris@.take(0), a));
    while i < tris.len()
        invariant
            i <= tris.len(),
            out@ == head + tris_commands(tris@.take(i as int), a),
        decreases tris.len() - i,
    {
        let ghost before = out@;
        let t: [DrawVertex; 3] = tris[i];
        push_vertex(out, &t[0], a);
        push_vertex(out, &t[1], a);
        push_vertex(out, &t[2], a);
        proof {
            let part = tris@.take(i + 1);
            assert(part.drop_last() =~= tris@.take(i as int));
            assert(part.last() == t);
            assert(out@ =~= before + tri_commands(t@, a));
            assert(out@ =~= head + tris_commands(part, a));
        }
        i = i + 1;
    }
    out.push(Gpu::Write { reg: GFX_END, value: 0 });
    assert(tris@.take(tris.len() as int) =~= tris@);
    assert(out@ =~= start + primitive(tris@, a));
}

/// The colours of a material.
pub open spec fn material_words(diffuse: Seq<u8>, ambient: Seq<u8>) -> Seq<Gpu> {
    seq![
        put(
            GFX_DIFFUSE_AMBIENT,
            material_value(
                rgb15_word(diffuse[0], diffuse[1], diffuse[2]),
                rgb15_word(ambient[0], ambient[1], ambient[2]),
                true,
            ),
        ),
        put(GFX_SPECULAR_EMISSION, 0),
    ]
}

/// The material of a lit mesh, or the default.
pub open spec fn material_commands(m: Option<DsMaterial>) -> Seq<Gpu> {
    match m {
        Some(m) => material_words(m.diffuse@, m.ambient@),
        None => material_words(seq![200u8, 200, 210], seq![40u8, 40, 55]),
    }
}

/// The steps that shade and draw a mesh: a lit one with material and lights, by its
/// display list if it has one; an unlit one by its vertex colours.
pub open spec fn body_commands(item: DrawItem, index: usize, mask: int) -> Seq<Gpu> {
    if item.lit {
        material_commands(item.material) + seq![
            put(GFX_POLY_FORMAT, (31 * 0x1_0000 + POLY_CULL_BACK + POLY_FOG + mask) as u32),
        ] + if item.baked {
            seq![Gpu::CallList { mesh: index }]
        } else {
            primitive(item.tris@, Attribute::Normal)
        }
    } else {
        seq![put(GFX_POLY_FORMAT, (31 * 0x1_0000 + POLY_CULL_NONE + POLY_FOG) as u32)] + primitive(
            item.tris@,
            Attribute::Color,
        )
    }
}

/// The steps that draw a mesh under its own matrix, if it is drawn.
pub open spec fn mesh_commands(item: DrawItem, index: usize, mask: int) -> Seq<Gpu> {
    if drawn(item) {
        seq![put(MATRIX_PUSH, 0)] + mult_matrix(item.draw.model@) + body_commands(
            item,
            index,
            mask,
        ) + seq![put(MATRIX_POP, 1)]
    } else {
        Seq::empty()
    }
}

/// The steps that draw the first `n` meshes.
pub open spec fn meshes_commands(items: Seq<DrawItem>, n: nat, mask: int) -> Seq<Gpu>
    decreases n,
{
    if n == 0 {
        Seq::empty()
    } else {
        meshes_commands(items, (n - 1) as nat, mask) + mesh_commands(
            items[n - 1],
            (n - 1) as usize,
            mask,
        )
    }
}

/// The steps of a frame: viewport, projection, view, lights, then the meshes.
pub open spec fn frame_commands(
    v: FrameView,
    lights: Seq<Option<FrameLight>>,
    items: Seq<DrawItem>,
) -> Seq<Gpu> {
    seq![full_screen(), put(MATRIX_CONTROL, GL_PROJECTION), put(MATRIX_IDENTITY, 0), perspective(v)]
        + view_commands(v) + light_commands(lights, 4) + meshes_commands(
        items,
        items.len(),
        light_mask(lights, 4),
    )
}

/// Append the steps that draw one mesh.
fn push_mesh(out: &mut Vec<Gpu>, item: &DrawItem, index: usize, mask: u32)
    requires
        mask < 16,
    ensures
        final(out)@ == old(out)@ + mesh_commands(*item, index, mask as int),
{
    let ghost start = out@;
    if item.draw.has_bounds && (!item.visible || !item.in_range) {
        assert(out@ =~= start + mesh_commands(*item, index, mask as int));
        return;
    }
    out.push(Gpu::Write { reg: MATRIX_PUSH, value: 0 });
    push_matrix(out, &item.draw.model);
    let ghost head = out@;
    assert(head =~= start + (seq![put(MATRIX_PUSH, 0)] + mult_matrix(item.draw.model@)));
    if item.lit {
        let m: DsMaterial = match item.material {
            Some(m) => m,
            None => DsMaterial::default(),
        };
        let diffuse: u32 = rgb15(m.diffuse[0], m.diffuse[1], m.diffuse[2]);
        let ambient: u32 = rgb15(m.ambient[0], m.ambient[1], m.ambient[2]);
        out.push(
            Gpu::Write { reg: GFX_DIFFUSE_AMBIENT, value: material_word(diffuse, ambient, true) },
        );
        out.push(Gpu::Write { reg: GFX_SPECULAR_EMISSION, value: 0 });
        assert(out@ =~= head + material_commands(item.material));
        out.push(
            Gpu::Write {
                reg: GFX_POLY_FORMAT,
                value: poly_alpha(31) + POLY_CULL_BACK + POLY_FOG + mask,
            },
        );
        if item.baked {
            out.push(Gpu::CallList { mesh: index });
        } else {
            push_primitive(out, &item.tris, Attribute::Normal);
        }
    } else {
        out.push(
            Gpu::Write { reg: GFX_POLY_FORMAT, value: poly_alpha(31) + POLY_CULL_NONE + POLY_FOG },
        );
        push_primitive(out, &item.tris, Attribute::Color);
    }
    assert(out@ =~= head + body_commands(*item, index, mask as int));
    out.push(Gpu::Write { reg: MATRIX_POP, value: 1 });
    assert(out@ =~= start + mesh_commands(*item, index, mask as int));
}

/// The steps of a frame, in order.
pub fn render_3d(
    view: &FrameView,
    lights: &[Option<FrameLight>; 4],
    items: &Vec<DrawItem>,
) -> (r: Vec<Gpu>)
    ensures
        r@ == frame_commands(*view, lights@, items@),
{
    let mut out: Vec<Gpu> = Vec::new();
    out.push(Gpu::Write { reg: GFX_VIEWPORT, value: viewport_word(0, 0, 255, 191) });
    out.push(Gpu::Write { reg: MATRIX_CONTROL, value: GL_PROJECTION });
    out.push(Gpu::Write { reg: MATRIX_IDENTITY, value: 0 });
    out.push(
        Gpu::Perspective { fovy: view.fovy, aspect: view.aspect, near: view.near, far: view.far },
    );
    assert(out@ =~= seq![
        full_screen(),
        put(MATRIX_CONTROL, GL_PROJECTION),
        put(MATRIX_IDENTITY, 0),
        perspective(*view),
    ]);
    push_view(&mut out, view);
    let mask: u32 = push_lights(&mut out, lights);
    let ghost head = out@;
    let mut i: usize = 0;
    assert(out@ =~= head + meshes_commands(items@, 0, mask as int));
    while i < items.len()
        invariant
            i <= items.len(),
            mask < 16,
            out@ == head + meshes_commands(items@, i as nat, mask as int),
        decreases items.len() - i,
    {
        push_mesh(&mut out, &items[i], i, mask);
        assert(out@ =~= head + meshes_commands(items@, (i + 1) as nat, mask as int));
        i = i + 1;
    }
    out
}

/// The step that hands a frame over.
pub fn flush_3d() -> (r: Gpu)
    ensures
        r == put(GFX_FLUSH, 0),
{
    Gpu::Write { reg: GFX_FLUSH, value: 0 }
}

/// The steps that prepare picking at a pixel: off screen, through a projection of the
/// box under the pen, counting polygons of either facing.
pub open spec fn pick_start(v: FrameView, px: i32, py: i32) -> Seq<Gpu> {
    seq![
        put(GFX_VIEWPORT, viewport_value(0, 192, 0, 192)),
        put(MATRIX_CONTROL, GL_PROJECTION),
        put(MATRIX_IDENTITY, 0),
        Gpu::PickMatrix { x: px, y: (191 - py) as i32, width: PICK_BOX, height: PICK_BOX },
        perspective(v),
    ] + view_commands(v) + seq![put(GFX_POLY_FORMAT, (31 * 0x1_0000 + POLY_CULL_NONE) as u32)]
}

/// The steps that draw a mesh for picking, between two counts of the polygons: its
/// origin is tested for its distance, then its bare geometry drawn.
pub open spec fn pick_mesh(item: DrawItem, index: usize) -> Seq<Gpu> {
    seq![put(MATRIX_PUSH, 0)] + mult_matrix(item.draw.model@) + seq![
        Gpu::WaitIdle,
        put(GFX_POS_TEST, 0),
        put(GFX_POS_TEST, 0),
        Gpu::CountPolygons,
    ] + (if item.baked {
        seq![Gpu::CallList { mesh: index }]
    } else {
        primitive(item.tris@, Attribute::Bare)
    }) + seq![Gpu::WaitIdle, Gpu::CountPolygons, put(MATRIX_POP, 1)]
}

/// A mesh out of sight is not tested; one without bounds always is.
pub open spec fn pickable(item: DrawItem) -> bool {
    !item.draw.has_bounds || item.visible
}

/// Is the mesh tested?
pub fn is_pickable(item: &DrawItem) -> (r: bool)
    ensures
        r == pickable(*item),
{
    !item.draw.has_bounds || item.visible
}

/// The picking steps of the first `n` meshes.
pub open spec fn pick_meshes(items: Seq<DrawItem>, n: nat) -> Seq<Gpu>
    decreases n,
{
    if n == 0 {
        Seq::empty()
    } else {
        pick_meshes(items, (n - 1) as nat) + if pickable(items[n - 1]) {
            pick_mesh(items[n - 1], (n - 1) as usize)
        } else {
            Seq::empty()
        }
    }
}

/// Append the picking steps of one mesh.
fn push_pick_mesh(out: &mut Vec<Gpu>, item: &DrawItem, index: usize)
    ensures
        final(out)@ == old(out)@ + pick_mesh(*item, index),
{
    let ghost start = out@;
    out.push(Gpu::Write { reg: MATRIX_PUSH, value: 0 });
    push_matrix(out, &item.draw.model);
    out.push(Gpu::WaitIdle);
    out.push(Gpu::Write { reg: GFX_POS_TEST, value: 0 });
    out.push(Gpu::Write { reg: GFX_POS_TEST, value: 0 });
    out.push(Gpu::CountPolygons);
    if item.baked {
        out.push(Gpu::CallList { mesh: index });
    } else {
        push_primitive(out, &item.tris, Attribute::Bare);
    }
    out.push(Gpu::WaitIdle);
    out.push(Gpu::CountPolygons);
    out.push(Gpu::Write { reg: MATRIX_POP, value: 1 });
    assert(out@ =~= start + pick_mesh(*item, index));
}

/// The steps of a picking pass at a pixel of the screen.
pub fn pick_3d(view: &FrameView, px: i32, py: i32, items: &Vec<DrawItem>) -> (r: Vec<Gpu>)
    requires
        191 - py <= i32::MAX,
    ensures
        r@ == pick_start(*view, px, py) + pick_meshes(items@, items@.len()),
{
    let mut out: Vec<Gpu> = Vec::new();
    out.push(Gpu::Write { reg: GFX_VIEWPORT, value: viewport_word(0, 192, 0, 192) });
    out.push(Gpu::Write { reg: MATRIX_CONTROL, value: GL_PROJECTION });
    out.push(Gpu::Write { reg: MATRIX_IDENTITY, value: 0 });
    out.push(Gpu::PickMatrix { x: px, y: 191 - py, width: PICK_BOX, height: PICK_BOX });
    out.push(
        Gpu::Perspective { fovy: view.fovy, aspect: view.aspect, near: view.near, far: view.far },
    );
    push_view(&mut out, view);
    out.push(Gpu::Write { reg: GFX_POLY_FORMAT, value: poly_alpha(31) + POLY_CULL_NONE });
    assert(out@ =~= pick_start(*view, px, py));
    let ghost head = out@;
    let mut i: usize = 0;
    assert(out@ =~= head + pick_meshes(items@, 0));
    while i < items.len()
        invariant
            i <= items.len(),
            head == pick_start(*view, px, py),
            out@ == head + pick_meshes(items@, i as nat),
        decreases items.len() - i,
    {
        let item: &DrawItem = &items[i];
        if is_pickable(item) {
            push_pick_mesh(&mut out, item, i);
        }
        assert(out@ =~= head + pick_meshes(items@, (i + 1) as nat));
        i = i + 1;
    }
    out
}

/// What the hardware answered for one mesh: the polygon counts before and after, and
/// the distance of its origin.
#[derive(Clone, Copy)]
pub struct PickReading {
    pub entity: u64,
    pub before: u16,
    pub after: u16,
    pub distance: i32,
}

/// Did the mesh draw anything under the pen?
pub open spec fn hit(r: PickReading) -> bool {
    r.after > r.before
}

/// Index `k` is the nearest hit among the first `n`: no hit is nearer, and none as
/// near comes later.
pub open spec fn nearest_hit(readings: Seq<PickReading>, n: int, k: int) -> bool {
    &&& 0 <= k < n
    &&& hit(readings[k])
    &&& forall|j: int|
        0 <= j < n && hit(#[trigger] readings[j]) ==> readings[k].distance < readings[j].distance
            || (readings[k].distance == readings[j].distance && j <= k)
}

/// Nothing was hit among the first `n`.
pub open spec fn no_hit(readings: Seq<PickReading>, n: int) -> bool {
    forall|j: int| 0 <= j < n ==> !hit(#[trigger] readings[j])
}

/// Which mesh is under the pen: the nearest that drew anything there, the last of
/// several as near.
pub fn pick_nearest(readings: &Vec<PickReading>) -> (r: Option<u64>)
    ensures
        r is None <==> no_hit(readings@, readings@.len() as int),
        r matches Some(e) ==> exists|k: int| #[trigger]
            nearest_hit(readings@, readings@.len() as int, k) && readings@[k].entity == e,
{
    let mut best: Option<usize> = None;
    let mut i: usize = 0;
    while i < readings.len()
        invariant
            i <= readings.len(),
            best is None ==> no_hit(readings@, i as int),
            best matches Some(k) ==> nearest_hit(readings@, i as int, k as int),
        decreases readings.len() - i,
    {
        let r: PickReading = readings[i];
        if r.after > r.before {
            match best {
                None => {
                    best = Some(i);
                },
                Some(k) => {
                    if r.distance <= readings[k].distance {
                        best = Some(i);
                    }
                },
            }
        }
        i = i + 1;
    }
    match best {
        Some(k) => {
            assert(nearest_hit(readings@, readings@.len() as int, k as int));
            assert(hit(readings@[k as int]));
            Some(readings[k].entity)
        },
        None => None,
    }
}

/// What is under the pen.
#[derive(Clone, Copy, Debug, PartialEq, Eq, Structural)]
pub struct TouchPick {
    /// The nearest mesh under the pen, if any.
    pub entity: Option<u64>,
}

impl Default for TouchPick {
    fn default() -> (r: Self)
        ensures
            r.entity is None,
    {
        TouchPick { entity: None }
    }
}

impl TouchPick {
    /// Take the result of a picking pass; without one, with the pen up, nothing is
    /// under it.
    pub fn update(&mut self, readings: Option<&Vec<PickReading>>)
        ensures
            match readings {
                None => final(self).entity is None,
                Some(v) => {
                    &&& final(self).entity is None <==> no_hit(v@, v@.len() as int)
                    &&& final(self).entity matches Some(e) ==> exists|k: int| #[trigger]
                        nearest_hit(v@, v@.len() as int, k) && v@[k].entity == e
                },
            },
    {
        self.entity = match readings {
            None => None,
            Some(v) => pick_nearest(v),
        };
    }
}

/// Two nearest hits are the same.
pub proof fn law_nearest_hit_is_unique(readings: Seq<PickReading>, n: int, a: int, b: int)
    requires
        nearest_hit(readings, n, a),
        nearest_hit(readings, n, b),
    ensures
        a == b,
{
    assert(hit(readings[a]) && hit(readings[b]));
}

/// Matrix pushes and pops are balanced in every mesh's steps: as many of one as of
/// the other.
pub open spec fn pushes(v: Seq<Gpu>, reg: u32) -> nat
    decreases v.len(),
{
    if v.len() == 0 {
        0
    } else {
        pushes(v.drop_last(), reg) + if v.last() matches Gpu::Write { reg: r, .. } && r == reg {
            1nat
        } else {
            0nat
        }
    }
}

proof fn lemma_pushes_concat(a: Seq<Gpu>, b: Seq<Gpu>, reg: u32)
    ensures
        pushes(a + b, reg) == pushes(a, reg) + pushes(b, reg),
    decreases b.len(),
{
    if b.len() == 0 {
        assert(a + b =~= a);
    } else {
        assert((a + b).drop_last() =~= a + b.drop_last());
        lemma_pushes_concat(a, b.drop_last(), reg);
    }
}

proof fn lemma_no_pushes(v: Seq<Gpu>, reg: u32)
    requires
        forall|i: int|
            0 <= i < v.len() ==> !(#[trigger] v[i] matches Gpu::Write { reg: r, .. } && r == reg),
    ensures
        pushes(v, reg) == 0,
    decreases v.len(),
{
    if v.len() > 0 {
        assert forall|i: int| 0 <= i < v.drop_last().len() implies !(
        #[trigger] v.drop_last()[i] matches Gpu::Write { reg: r, .. } && r == reg) by {
            assert(v.drop_last()[i] == v[i]);
        }
        lemma_no_pushes(v.drop_last(), reg);
        assert(v.last() == v[v.len() - 1]);
    }
}

/// No vertex step touches the matrix stack.
proof fn lemma_tris_no_pushes(v: Seq<[DrawVertex; 3]>, a: Attribute, reg: u32)
    requires
        reg == MATRIX_PUSH || reg == MATRIX_POP,
    ensures
        pushes(tris_commands(v, a), reg) == 0,
    decreases v.len(),
{
    if v.len() > 0 {
        lemma_tris_no_pushes(v.drop_last(), a, reg);
        lemma_pushes_concat(tris_commands(v.drop_last(), a), tri_commands(v.last()@, a), reg);
        lemma_no_pushes(tri_commands(v.last()@, a), reg);
    }
}

proof fn lemma_primitive_no_pushes(v: Seq<[DrawVertex; 3]>, a: Attribute, reg: u32)
    requires
        reg == MATRIX_PUSH || reg == MATRIX_POP,
    ensures
        pushes(primitive(v, a), reg) == 0,
{
    let head: Seq<Gpu> = seq![put(GFX_BEGIN, GL_TRIANGLES)];
    let tail: Seq<Gpu> = seq![put(GFX_END, 0)];
    lemma_tris_no_pushes(v, a, reg);
    lemma_no_pushes(head, reg);
    lemma_no_pushes(tail, reg);
    lemma_pushes_concat(head, tris_commands(v, a), reg);
    lemma_pushes_concat(head + tris_commands(v, a), tail, reg);
}

proof fn lemma_body_no_pushes(item: DrawItem, index: usize, mask: int, reg: u32)
    requires
        reg == MATRIX_PUSH || reg == MATRIX_POP,
    ensures
        pushes(body_commands(item, index, mask), reg) == 0,
{
    lemma_primitive_no_pushes(item.tris@, Attribute::Normal, reg);
    lemma_primitive_no_pushes(item.tris@, Attribute::Color, reg);
    if item.lit {
        let head = material_commands(item.material) + seq![
            put(GFX_POLY_FORMAT, (31 * 0x1_0000 + POLY_CULL_BACK + POLY_FOG + mask) as u32),
        ];
        lemma_no_pushes(head, reg);
        if item.baked {
            lemma_no_pushes(seq![Gpu::CallList { mesh: index }], reg);
            lemma_pushes_concat(head, seq![Gpu::CallList { mesh: index }], reg);
        } else {
            lemma_pushes_concat(head, primitive(item.tris@, Attribute::Normal), reg);
        }
    } else {
        let head: Seq<Gpu> = seq![
            put(GFX_POLY_FORMAT, (31 * 0x1_0000 + POLY_CULL_NONE + POLY_FOG) as u32),
        ];
        lemma_no_pushes(head, reg);
        lemma_pushes_concat(head, primitive(item.tris@, Attribute::Color), reg);
    }
}

/// Every mesh leaves the matrix stack as it found it: it is pushed once and popped
/// once if the mesh is drawn, and not touched if it is not.
pub proof fn law_matrix_stack_is_balanced(item: DrawItem, index: usize, mask: int)
    ensures
        pushes(mesh_commands(item, index, mask), MATRIX_PUSH) == pushes(
            mesh_commands(item, index, mask),
            MATRIX_POP,
        ),
        pushes(mesh_commands(item, index, mask), MATRIX_PUSH) == if drawn(item) {
            1nat
        } else {
            0nat
        },
{
    if drawn(item) {
        let a: Seq<Gpu> = seq![put(MATRIX_PUSH, 0)];
        let b = mult_matrix(item.draw.model@);
        let c = body_commands(item, index, mask);
        let d: Seq<Gpu> = seq![put(MATRIX_POP, 1)];
        lemma_stack_parts(a, b, c, d, MATRIX_PUSH);
        lemma_stack_parts(a, b, c, d, MATRIX_POP);
        lemma_no_pushes(b, MATRIX_PUSH);
        lemma_no_pushes(b, MATRIX_POP);
        lemma_body_no_pushes(item, index, mask, MATRIX_PUSH);
        lemma_body_no_pushes(item, index, mask, MATRIX_POP);
        lemma_no_pushes(a, MATRIX_POP);
        lemma_no_pushes(d, MATRIX_PUSH);
        reveal_with_fuel(pushes, 2);
        assert(a.drop_last() =~= Seq::empty());
        assert(d.drop_last() =~= Seq::empty());
    }
}

proof fn lemma_stack_parts(a: Seq<Gpu>, b: Seq<Gpu>, c: Seq<Gpu>, d: Seq<Gpu>, reg: u32)
    ensures
        pushes(a + b + c + d, reg) == pushes(a, reg) + pushes(b, reg) + pushes(c, reg) + pushes(
            d,
            reg,
        ),
{
    lemma_pushes_concat(a, b, reg);
    lemma_pushes_concat(a + b, c, reg);
    lemma_pushes_concat(a + b + c, d, reg);
}

} // verus!
