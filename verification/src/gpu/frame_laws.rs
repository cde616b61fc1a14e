//! What a frame says to the engine, word by word.

use crate::gpu::mesh::{DsMaterial, Vec3};
use crate::gpu::render::{
    attributed, body_commands, fog_table, frame_commands, hit, init_3d, init_commands,
    light_commands, light_mask, material_commands, mesh_commands, meshes_commands, mult_matrix,
    nearest_hit, no_hit, packed_direction, pick_3d, pick_mesh, pick_meshes, pick_nearest,
    pick_start, pickable, primitive, redrawn, reduce_angle, render_3d, set_outline, tri_commands,
    tris_commands, vertex_commands, view_commands, view_rotation, Attribute, DrawItem, DrawVertex,
    FrameLight, FrameView, Gpu, MeshDraw, PickReading, Placed, GFX_BEGIN, GFX_CLEAR_DEPTH,
    GFX_COLOR, GFX_CONTROL, GFX_DIFFUSE_AMBIENT, GFX_EDGE_TABLE, GFX_END, GFX_FOG_COLOR,
    GFX_FOG_OFFSET, GFX_FOG_TABLE, GFX_LIGHT_COLOR, GFX_LIGHT_VECTOR, GFX_NORMAL, GFX_POLY_FORMAT,
    GFX_POS_TEST, GFX_SPECULAR_EMISSION, GFX_VERTEX16, GFX_VIEWPORT, MATRIX_CONTROL,
    MATRIX_IDENTITY, MATRIX_MULT_4X4, MATRIX_POP, MATRIX_PUSH, MATRIX_TRANSLATE, REG_DISPCNT,
    REG_POWERCNT,
};
use crate::gpu::words::{
    fog_control, fx32_to_v10, light_value, main_lcd, pack10, rgb15_word, v10_of,
};
use crate::math::fx::{fx_mul, Fx32};
use crate::math::fx_vec::FxVec3;
use crate::math::mat::{model_entry, model_matrix, rotation_entry};
use crate::math::mat_laws::{is_ratio, lemma_rotation, times, turn_x, turn_y, turn_z};
use vstd::math::abs;
use vstd::prelude::*;

verus! {

/// A signed number and the word with the same bits.
pub open spec fn same_bits(v: i32, w: u32) -> bool {
    w == v || w == v + 0x1_0000_0000
}

/// A step that writes a signed number to a register.
pub open spec fn puts(step: Gpu, reg: u32, v: i32) -> bool {
    step matches Gpu::Write { reg: to, value } && to == reg && same_bits(v, value)
}

/// A step that writes a packed colour to a register.
pub open spec fn puts_color(step: Gpu, reg: u32, c: Seq<u8>) -> bool {
    step matches Gpu::Write { reg: to, value } && to == reg && packs_color(value as int, c)
        && value < 0x8000
}

/// Step `at` writes a word to a register.
pub open spec fn writes(steps: Seq<Gpu>, at: int, reg: u32, value: int) -> bool {
    0 <= at < steps.len() && steps[at] == (Gpu::Write { reg, value: value as u32 }) && 0 <= value
        <= u32::MAX
}

/// Steps `at` and following write the sixteen numbers of a matrix, in order.
pub open spec fn multiplies(steps: Seq<Gpu>, at: int, m: Seq<i32>) -> bool {
    &&& 0 <= at
    &&& at + 16 <= steps.len()
    &&& forall|k: int|
        0 <= k < 16 ==> puts(#[trigger] steps[at + k], MATRIX_MULT_4X4, m[k])
}

/// The view of a camera turns by the negated pitch about X after the negated yaw about
/// Y, and does not move.
pub proof fn law_view_rotation_turns_pitch_after_yaw(
    pitch: (Fx32, Fx32),
    yaw: (Fx32, Fx32),
    m: [i32; 16],
    row: int,
    col: int,
)
    requires
        is_ratio(pitch.0) && is_ratio(pitch.1) && is_ratio(yaw.0) && is_ratio(yaw.1),
        call_ensures(view_rotation, (pitch, yaw), m),
        0 <= row < 3,
        0 <= col < 3,
    ensures
        abs(
            times(
                turn_x(pitch.0.0 as int, pitch.1.0 as int),
                times(turn_y(yaw.0.0 as int, yaw.1.0 as int), turn_z(0, 4096)),
            )(row, col) - 0x100_0000 * m@[4 * col + row],
        ) <= 3 * 0x100_0000,
        m@[12 + row] == 0,
        m@[4 * col + 3] == 0,
        m@[15] == 4096,
{
    let sx = pitch.0.0 as int;
    let cx = pitch.1.0 as int;
    let sy = yaw.0.0 as int;
    let cy = yaw.1.0 as int;
    lemma_rotation(sx, cx, sy, cy, 0, 4096, row, col);
    let entry = rotation_entry(sx, cx, sy, cy, 0, 4096, row, col);
    assert(fx_mul(entry, 4096) == entry);
    let none = FxVec3 { x: Fx32(0), y: Fx32(0), z: Fx32(0) };
    let one = FxVec3 { x: Fx32(4096), y: Fx32(4096), z: Fx32(4096) };
    let sincos = seq![pitch, yaw, (Fx32(0), Fx32(4096))];
    assert(m@[4 * col + row] == model_entry(none, sincos, one, row, col));
    assert(m@[4 * 3int + row] == model_entry(none, sincos, one, row, 3));
    assert(m@[4 * col + 3] == model_entry(none, sincos, one, 3, col));
    assert(m@[4 * 3int + 3] == model_entry(none, sincos, one, 3, 3));
}

/// A frame sets the viewport to the screen, the projection, then the view: the camera's
/// rotation and its negated position. Then come the lights and the meshes.
#[verifier::spinoff_prover]
#[verifier::rlimit(60)]
pub proof fn law_frame_sets_the_view(
    view: &FrameView,
    lights: &[Option<FrameLight>; 4],
    items: &Vec<DrawItem>,
    r: Vec<Gpu>,
)
    requires
        call_ensures(render_3d, (view, lights, items), r),
    ensures
        writes(r@, 0, GFX_VIEWPORT, 255int * 0x1_0000 + 191 * 0x100_0000),
        writes(r@, 1, MATRIX_CONTROL, 0),
        writes(r@, 2, MATRIX_IDENTITY, 0),
        r@[3] == (Gpu::Perspective {
            fovy: view.fovy,
            aspect: view.aspect,
            near: view.near,
            far: view.far,
        }),
        writes(r@, 4, MATRIX_CONTROL, 2),
        writes(r@, 5, MATRIX_IDENTITY, 0),
        multiplies(r@, 6, view.rotation@),
        forall|k: int|
            0 <= k < 3 ==> puts(#[trigger] r@[22 + k], MATRIX_TRANSLATE, view.offset@[k]),
{
    let head = r@.take(4);
    let v = view_commands(*view);
    let s = r@;
    let f = frame_commands(*view, lights@, items@);
    assert(s == f);
    assert(v.len() == 21);
    assert forall|k: int| 0 <= k < 21 implies #[trigger] s[4 + k] == v[k] by {}
    assert forall|k: int| 0 <= k < 16 implies puts(#[trigger] s[6 + k], MATRIX_MULT_4X4, view.rotation@[k]) by {
        assert(s[4 + (k + 2)] == v[k + 2]);
        assert(v[k + 2] == mult_matrix(view.rotation@)[k]);
    }
    assert(s[4int + 0] == v[0] && s[4int + 1] == v[1]);
    assert forall|k: int| 0 <= k < 3 implies puts(#[trigger] s[22 + k], MATRIX_TRANSLATE, view.offset@[k]) by {
        assert(s[4 + (k + 18)] == v[k + 18]);
        assert(k == 0 || k == 1 || k == 2);
    }
}

/// One part of a list of steps.
pub open spec fn has_part(steps: Seq<Gpu>, part: Seq<Gpu>) -> bool {
    exists|at: int|
        0 <= at && at + part.len() <= steps.len() && #[trigger] steps.subrange(at, at + part.len())
            == part
}

proof fn lemma_part_of_sum(a: Seq<Gpu>, b: Seq<Gpu>, part: Seq<Gpu>)
    ensures
        has_part(a, part) ==> has_part(a + b, part),
        has_part(b, part) ==> has_part(a + b, part),
{
    let n = part.len() as int;
    if has_part(a, part) {
        let at = choose|at: int|
            0 <= at && at + n <= a.len() && #[trigger] a.subrange(at, at + n) == part;
        assert((a + b).subrange(at, at + n) =~= a.subrange(at, at + n));
    }
    if has_part(b, part) {
        let at = choose|at: int|
            0 <= at && at + n <= b.len() && #[trigger] b.subrange(at, at + n) == part;
        let to = a.len() + at;
        assert((a + b).subrange(to, to + n) =~= b.subrange(at, at + n));
    }
}

proof fn lemma_whole_part(a: Seq<Gpu>)
    ensures
        has_part(a, a),
{
    let at: int = 0;
    assert(a.subrange(at, at + a.len()) =~= a);
}

proof fn lemma_mesh_part(items: Seq<DrawItem>, n: nat, mask: int, i: int)
    requires
        0 <= i < n <= items.len(),
    ensures
        has_part(meshes_commands(items, n, mask), mesh_commands(items[i], i as usize, mask)),
    decreases n,
{
    let own = mesh_commands(items[n - 1], (n - 1) as usize, mask);
    let rest = meshes_commands(items, (n - 1) as nat, mask);
    if i == n - 1 {
        lemma_whole_part(own);
        lemma_part_of_sum(rest, own, own);
    } else {
        lemma_mesh_part(items, (n - 1) as nat, mask, i);
        lemma_part_of_sum(rest, own, mesh_commands(items[i], i as usize, mask));
    }
}

/// The bits of the lights that are on.
pub open spec fn lights_on(lights: Seq<Option<FrameLight>>) -> int {
    (if lights[0] is Some {
        1int
    } else {
        0
    }) + (if lights[1] is Some {
        2int
    } else {
        0
    }) + (if lights[2] is Some {
        4int
    } else {
        0
    }) + (if lights[3] is Some {
        8int
    } else {
        0
    })
}

/// A frame draws every mesh that is not culled, lit by exactly the lights that are on.
pub proof fn law_frame_draws_each_mesh(
    view: &FrameView,
    lights: &[Option<FrameLight>; 4],
    items: &Vec<DrawItem>,
    r: Vec<Gpu>,
    i: int,
)
    requires
        call_ensures(render_3d, (view, lights, items), r),
        0 <= i < items@.len(),
    ensures
        has_part(r@, mesh_commands(items@[i], i as usize, lights_on(lights@))),
{
    lemma_mask(lights@);
    let mask = light_mask(lights@, 4);
    lemma_mesh_part(items@, items@.len(), mask, i);
    let f = frame_commands(*view, lights@, items@);
    let meshes = meshes_commands(items@, items@.len(), mask);
    let head = f.take(f.len() - meshes.len());
    assert(f =~= head + meshes);
    lemma_part_of_sum(head, meshes, mesh_commands(items@[i], i as usize, mask));
}

proof fn lemma_mask(lights: Seq<Option<FrameLight>>)
    ensures
        light_mask(lights, 4) == lights_on(lights),
{
    reveal_with_fuel(light_mask, 5);
}

/// A word that packs a colour: five bits of each channel.
pub open spec fn packs_color(w: int, c: Seq<u8>) -> bool {
    &&& w % 32 == c[0] as int / 8
    &&& (w / 32) % 32 == c[1] as int / 8
    &&& (w / 1024) % 32 == c[2] as int / 8
}

proof fn lemma_packs_color(r: u8, g: u8, b: u8)
    ensures
        packs_color(rgb15_word(r, g, b) as int, seq![r, g, b]),
        rgb15_word(r, g, b) < 0x8000,
{
}

/// The two steps that set a light.
pub open spec fn light_pair(d: u32, c: u32) -> Seq<Gpu> {
    seq![
        Gpu::Write { reg: GFX_LIGHT_VECTOR, value: d },
        Gpu::Write { reg: GFX_LIGHT_COLOR, value: c },
    ]
}

/// A light that is on is set: its number stands in the top two bits of both words, its
/// colour in the low bits of one, and its direction, brought to unit length, in the low
/// thirty bits of the other, ten for each component.
pub proof fn law_frame_sets_each_light(
    view: &FrameView,
    lights: &[Option<FrameLight>; 4],
    items: &Vec<DrawItem>,
    r: Vec<Gpu>,
    i: int,
    unit: FxVec3,
)
    requires
        call_ensures(render_3d, (view, lights, items), r),
        0 <= i < 4,
        lights@[i] is Some,
        call_ensures(FxVec3::normalize_or_zero, ((lights@[i]->0).direction,), unit),
    ensures
        exists|d: u32, c: u32|
            has_part(r@, #[trigger] light_pair(d, c)) && light_words(
                d as int,
                c as int,
                i,
                unit,
                (lights@[i]->0).color@,
            ),
{
    let l = lights@[i]->0;
    let dir = packed_direction(l.direction);
    lemma_direction(l.direction, unit);
    let col = rgb15_word(l.color@[0], l.color@[1], l.color@[2]);
    lemma_packs_color(l.color@[0], l.color@[1], l.color@[2]);
    assert(l.color@ =~= seq![l.color@[0], l.color@[1], l.color@[2]]);
    let d = light_value(i as u32, dir);
    let c = light_value(i as u32, col);
    lemma_light_words(dir, col, i, unit, l.color@);
    lemma_light_part(lights@, 4, i, dir);
    let own = light_commands(lights@, 4);
    lemma_frame_lights(*view, lights@, items@, light_pair(d, c));
}

/// The words of a light.
pub open spec fn light_words(d: int, c: int, i: int, unit: FxVec3, color: Seq<u8>) -> bool {
    &&& d / 0x4000_0000 == i
    &&& c / 0x4000_0000 == i
    &&& packs_color(c % 0x8000, color)
    &&& ten_bits(d % 0x400, unit.x.0 as int)
    &&& ten_bits((d / 0x400) % 0x400, unit.y.0 as int)
    &&& ten_bits((d / 0x10_0000) % 0x400, unit.z.0 as int)
}

/// Ten bits that hold a number between minus one and one: its first nine fractional
/// bits, cut short, or the nearest that fits.
pub open spec fn ten_bits(w: int, raw: int) -> bool {
    let v = if w < 0x200 {
        w
    } else {
        w - 0x400
    };
    &&& 0 <= w < 0x400
    &&& -4096 < raw < 4096 ==> 8 * v <= raw < 8 * v + 8
    &&& raw >= 4096 ==> v == 511
    &&& raw <= -4096 ==> v == -512
}

/// A component is held in ten bits as far as they reach.
pub proof fn law_ten_bits_hold_the_component(v: Fx32, w: u32)
    requires
        call_ensures(fx32_to_v10, (v,), w),
    ensures
        ten_bits(w as int, v.0 as int),
{
}

proof fn lemma_direction(d: FxVec3, unit: FxVec3)
    requires
        call_ensures(FxVec3::normalize_or_zero, (d,), unit),
    ensures
        packed_direction(d) < 0x4000_0000,
        ten_bits(packed_direction(d) as int % 0x400, unit.x.0 as int),
        ten_bits((packed_direction(d) as int / 0x400) % 0x400, unit.y.0 as int),
        ten_bits((packed_direction(d) as int / 0x10_0000) % 0x400, unit.z.0 as int),
{
    let x = v10_of(unit.x.0 as int);
    let y = v10_of(unit.y.0 as int);
    let z = v10_of(unit.z.0 as int);
    let p = packed_direction(d);
    assert(p == pack10(x, y, z));
    lemma_ten(x, y, z);
}

proof fn lemma_ten(x: int, y: int, z: int)
    requires
        0 <= x < 0x400,
        0 <= y < 0x400,
        0 <= z < 0x400,
    ensures
        0 <= x + y * 0x400 + z * 0x10_0000 < 0x4000_0000,
        (x + y * 0x400 + z * 0x10_0000) % 0x400 == x,
        ((x + y * 0x400 + z * 0x10_0000) / 0x400) % 0x400 == y,
        ((x + y * 0x400 + z * 0x10_0000) / 0x10_0000) % 0x400 == z,
{
}

#[verifier::spinoff_prover]
#[verifier::rlimit(60)]
proof fn lemma_light_words(dir: u32, col: u32, i: int, unit: FxVec3, color: Seq<u8>)
    requires
        0 <= i < 4,
        dir < 0x4000_0000,
        col < 0x8000,
        packs_color(col as int, color),
        ten_bits(dir as int % 0x400, unit.x.0 as int),
        ten_bits((dir as int / 0x400) % 0x400, unit.y.0 as int),
        ten_bits((dir as int / 0x10_0000) % 0x400, unit.z.0 as int),
    ensures
        light_words(
            light_value(i as u32, dir) as int,
            light_value(i as u32, col) as int,
            i,
            unit,
            color,
        ),
{
    lemma_light_value(dir, i);
    lemma_light_value(col, i);
    lemma_under_light(dir as int, i);
    lemma_under_light(col as int, i);
    assert(col as int % 0x8000 == col);
}

proof fn lemma_light_value(x: u32, i: int)
    requires
        0 <= i < 4,
        x < 0x4000_0000,
    ensures
        light_value(i as u32, x) == i * 0x4000_0000 + x,
{
}

#[verifier::spinoff_prover]
#[verifier::rlimit(60)]
proof fn lemma_under_light(x: int, i: int)
    requires
        0 <= i < 4,
        0 <= x < 0x4000_0000,
    ensures
        (i * 0x4000_0000 + x) / 0x4000_0000 == i,
        (i * 0x4000_0000 + x) % 0x8000 == x % 0x8000,
        (i * 0x4000_0000 + x) % 0x400 == x % 0x400,
        ((i * 0x4000_0000 + x) / 0x400) % 0x400 == (x / 0x400) % 0x400,
        ((i * 0x4000_0000 + x) / 0x10_0000) % 0x400 == (x / 0x10_0000) % 0x400,
{
    assert((i * 0x4000_0000 + x) / 0x400 == i * 0x10_0000 + x / 0x400);
    assert((i * 0x4000_0000 + x) / 0x10_0000 == i * 0x400 + x / 0x10_0000);
}

proof fn lemma_frame_lights(
    v: FrameView,
    lights: Seq<Option<FrameLight>>,
    items: Seq<DrawItem>,
    part: Seq<Gpu>,
)
    requires
        has_part(light_commands(lights, 4), part),
    ensures
        has_part(frame_commands(v, lights, items), part),
{
    let f = frame_commands(v, lights, items);
    let meshes = meshes_commands(items, items.len(), light_mask(lights, 4));
    let own = light_commands(lights, 4);
    let head = f.take(f.len() - meshes.len() - own.len());
    assert(f =~= head + own + meshes);
    lemma_part_of_sum(head, own, part);
    lemma_part_of_sum(head + own, meshes, part);
}

#[verifier::spinoff_prover]
#[verifier::rlimit(60)]
proof fn lemma_light_part(lights: Seq<Option<FrameLight>>, n: nat, i: int, dir: u32)
    requires
        0 <= i < n <= 4,
        lights[i] is Some,
        dir == packed_direction((lights[i]->0).direction),
    ensures
        ({
            let l = lights[i]->0;
            has_part(
                light_commands(lights, n),
                light_pair(
                    light_value(i as u32, dir),
                    light_value(i as u32, rgb15_word(l.color@[0], l.color@[1], l.color@[2])),
                ),
            )
        }),
    decreases n,
{
    let l = lights[i]->0;
    let part = light_pair(
        light_value(i as u32, dir),
        light_value(i as u32, rgb15_word(l.color@[0], l.color@[1], l.color@[2])),
    );
    let rest = light_commands(lights, (n - 1) as nat);
    let all = light_commands(lights, n);
    if i == n - 1 {
        assert(all == rest + part);
        lemma_whole_part(part);
        lemma_part_of_sum(rest, part, part);
    } else {
        lemma_light_part(lights, (n - 1) as nat, i, dir);
        if lights[n - 1] is Some {
            let tail = all.skip(rest.len() as int);
            assert(all =~= rest + tail);
            lemma_part_of_sum(rest, tail, part);
        }
    }
}

/// What the matrix words of a mesh are.
proof fn lemma_matrix_words(m: Seq<i32>, k: int)
    requires
        0 <= k < m.len(),
    ensures
        mult_matrix(m)[k] matches Gpu::Write { reg, value } && reg == MATRIX_MULT_4X4 && same_bits(
            m[k],
            value,
        ),
        mult_matrix(m).len() == m.len(),
{
}

/// A mesh that is drawn is drawn under its own matrix, between a push and a pop; one
/// with bounds that are out of sight or out of range is left out whole.
pub proof fn law_mesh_is_drawn_under_its_matrix(item: DrawItem, index: usize, mask: int)
    ensures
        item.draw.has_bounds && !(item.visible && item.in_range) ==> mesh_commands(
            item,
            index,
            mask,
        ).len() == 0,
        !item.draw.has_bounds || (item.visible && item.in_range) ==> {
            let s = mesh_commands(item, index, mask);
            &&& writes(s, 0, MATRIX_PUSH, 0)
            &&& multiplies(s, 1, item.draw.model@)
            &&& s.subrange(17, s.len() - 1) == body_commands(item, index, mask)
            &&& writes(s, s.len() - 1, MATRIX_POP, 1)
        },
{
    if !item.draw.has_bounds || (item.visible && item.in_range) {
        let s = mesh_commands(item, index, mask);
        let m = item.draw.model@;
        let body = body_commands(item, index, mask);
        assert(mult_matrix(m).len() == 16);
        assert(s.len() == 18 + body.len());
        assert forall|k: int| 0 <= k < 16 implies puts(#[trigger] s[1 + k], MATRIX_MULT_4X4, m[k]) by {
            assert(s[1 + k] == mult_matrix(m)[k]);
            lemma_matrix_words(m, k);
        }
        assert(s.subrange(17, s.len() - 1) =~= body);
    }
}

/// The word of a vertex's first two coordinates: each as a halfword.
pub open spec fn packs_xy(w: int, x: i16, y: i16) -> bool {
    &&& (w % 0x1_0000 == x || w % 0x1_0000 == x + 0x1_0000)
    &&& (w / 0x1_0000 == y || w / 0x1_0000 == y + 0x1_0000)
    &&& 0 <= w <= u32::MAX
}

/// Steps `at` and `at + 1` place a vertex.
pub open spec fn places_vertex(s: Seq<Gpu>, at: int, v: DrawVertex) -> bool {
    &&& 0 <= at
    &&& at + 2 <= s.len()
    &&& s[at] matches Gpu::Write { reg, value } && reg == GFX_VERTEX16 && packs_xy(
        value as int,
        v.pos@[0],
        v.pos@[1],
    )
    &&& s[at + 1] matches Gpu::Write { reg, value } && reg == GFX_VERTEX16 && (value == v.pos@[2]
        || value == v.pos@[2] + 0x1_0000)
}

proof fn lemma_places(v: DrawVertex)
    ensures
        vertex_commands(v).len() == 2,
        places_vertex(vertex_commands(v), 0, v),
{
}

/// The steps of triangle `k`.
#[verifier::spinoff_prover]
#[verifier::rlimit(60)]
proof fn lemma_tris(v: Seq<[DrawVertex; 3]>, a: Attribute, k: int)
    requires
        0 <= k < v.len(),
    ensures
        ({
            let n: int = if a is Bare {
                6
            } else {
                9
            };
            &&& tris_commands(v, a).len() == n * v.len()
            &&& tris_commands(v, a).subrange(n * k, n * k + n) == tri_commands(v[k]@, a)
        }),
    decreases v.len(),
{
    let n: int = if a is Bare {
        6
    } else {
        9
    };
    let all = tris_commands(v, a);
    let init = v.drop_last();
    let head = tris_commands(init, a);
    let own = tri_commands(v.last()@, a);
    assert(own.len() == n);
    assert(all == head + own);
    if init.len() > 0 {
        lemma_tris(init, a, 0);
    } else {
        assert(head.len() == 0);
    }
    if k == v.len() - 1 {
        assert(all.subrange(n * k, n * k + n) =~= own);
    } else {
        lemma_tris(init, a, k);
        assert(all.subrange(n * k, n * k + n) =~= head.subrange(n * k, n * k + n));
    }
}

/// Corner `j` of triangle `k` of a primitive stands where it belongs: its normal or
/// its colour first, then its position.
#[verifier::spinoff_prover]
#[verifier::rlimit(60)]
pub proof fn law_primitive_lists_its_corners(
    tris: Seq<[DrawVertex; 3]>,
    a: Attribute,
    k: int,
    j: int,
)
    requires
        0 <= k < tris.len(),
        0 <= j < 3,
    ensures
        ({
            let s = primitive(tris, a);
            let v = tris[k]@[j];
            &&& writes(s, 0, GFX_BEGIN, 0)
            &&& writes(s, s.len() - 1, GFX_END, 0)
            &&& a is Bare ==> s.len() == 6 * tris.len() + 2 && places_vertex(
                s,
                1 + 6 * k + 2 * j,
                v,
            )
            &&& !(a is Bare) ==> s.len() == 9 * tris.len() + 2 && places_vertex(
                s,
                2 + 9 * k + 3 * j,
                v,
            )
            &&& a is Normal ==> writes(s, 1 + 9 * k + 3 * j, GFX_NORMAL, v.normal as int)
            &&& a is Color ==> puts_color(s[1 + 9 * k + 3 * j], GFX_COLOR, v.color@)
        }),
{
    let n: int = if a is Bare {
        6
    } else {
        9
    };
    let s = primitive(tris, a);
    let body = tris_commands(tris, a);
    lemma_tris(tris, a, k);
    let own = tri_commands(tris[k]@, a);
    let v = tris[k]@[j];
    lemma_places(v);
    lemma_packs_color(v.color@[0], v.color@[1], v.color@[2]);
    assert(v.color@ =~= seq![v.color@[0], v.color@[1], v.color@[2]]);
    let m = n / 3;
    assert(attributed(v, a).len() == m);
    assert(own.subrange(m * j, m * j + m) =~= attributed(v, a)) by {
        assert(j == 0 || j == 1 || j == 2);
    }
    assert forall|i: int| 0 <= i < m implies #[trigger] attributed(v, a)[i] == s[1 + n * k + m * j
        + i] by {
        assert(own.subrange(m * j, m * j + m)[i] == own[m * j + i]);
        assert(body.subrange(n * k, n * k + n)[m * j + i] == body[n * k + m * j + i]);
        assert(s[1 + (n * k + m * j + i)] == body[n * k + m * j + i]);
    }
    let own_v = attributed(v, a);
    if a is Bare {
        assert(own_v[0] == vertex_commands(v)[0] && own_v[1] == vertex_commands(v)[1]);
        assert(own_v[0] == s[1 + 6 * k + 2 * j + 0]);
        assert(own_v[1] == s[1 + 6 * k + 2 * j + 1]);
    } else {
        assert(own_v[1] == vertex_commands(v)[0] && own_v[2] == vertex_commands(v)[1]);
        assert(own_v[0] == s[1 + 9 * k + 3 * j + 0]);
        assert(own_v[1] == s[1 + 9 * k + 3 * j + 1]);
        assert(own_v[2] == s[1 + 9 * k + 3 * j + 2]);
    }
}

/// The colours that a lit mesh is shaded with: its material's, or grey ones.
pub open spec fn shading(m: Option<DsMaterial>) -> (Seq<u8>, Seq<u8>) {
    match m {
        Some(m) => (m.diffuse@, m.ambient@),
        None => (seq![200u8, 200, 210], seq![40u8, 40, 55]),
    }
}

/// A lit mesh takes its material, the lights and hidden back faces, and is drawn by its
/// display list or with its normals; an unlit one takes neither, shows both sides, and
/// is drawn with its colours. Both are opaque and take fog.
#[verifier::spinoff_prover]
#[verifier::rlimit(60)]
pub proof fn law_mesh_takes_its_shading(item: DrawItem, index: usize, mask: int)
    requires
        0 <= mask < 16,
    ensures
        item.lit ==> {
            let s = body_commands(item, index, mask);
            &&& s[0] matches Gpu::Write { reg, value } && reg == GFX_DIFFUSE_AMBIENT && packs_color(
                value as int % 0x8000,
                shading(item.material).0,
            ) && (value as int / 0x8000) % 2 == 1 && packs_color(
                value as int / 0x1_0000,
                shading(item.material).1,
            )
            &&& writes(s, 1, GFX_SPECULAR_EMISSION, 0)
            &&& writes(s, 2, GFX_POLY_FORMAT, 31int * 0x1_0000 + 0x8000 + 0x80 + mask)
            &&& item.baked ==> s.skip(3) == seq![Gpu::CallList { mesh: index }]
            &&& !item.baked ==> s.skip(3) == primitive(item.tris@, Attribute::Normal)
        },
        !item.lit ==> {
            let s = body_commands(item, index, mask);
            &&& writes(s, 0, GFX_POLY_FORMAT, 31int * 0x1_0000 + 0x8000 + 0xc0)
            &&& s.skip(1) == primitive(item.tris@, Attribute::Color)
        },
{
    let s = body_commands(item, index, mask);
    if item.lit {
        let (d, a) = shading(item.material);
        lemma_packs_color(d[0], d[1], d[2]);
        lemma_packs_color(a[0], a[1], a[2]);
        assert(d =~= seq![d[0], d[1], d[2]]);
        assert(a =~= seq![a[0], a[1], a[2]]);
        let dw = rgb15_word(d[0], d[1], d[2]) as int;
        let aw = rgb15_word(a[0], a[1], a[2]) as int;
        let v = dw + 0x8000 + aw * 0x1_0000;
        assert(v % 0x8000 == dw && (v / 0x8000) % 2 == 1 && v / 0x1_0000 == aw);
        assert(material_commands(item.material).len() == 2);
        if item.baked {
            assert(s.skip(3) =~= seq![Gpu::CallList { mesh: index }]);
        } else {
            assert(s.skip(3) =~= primitive(item.tris@, Attribute::Normal));
        }
    } else {
        assert(s.skip(1) =~= primitive(item.tris@, Attribute::Color));
    }
}

/// A picking pass draws off the screen, through a box around the pen whose height is
/// counted from the bottom, in the frame's own projection and view.
#[verifier::spinoff_prover]
#[verifier::rlimit(60)]
pub proof fn law_pick_looks_under_the_pen(
    view: &FrameView,
    px: i32,
    py: i32,
    items: &Vec<DrawItem>,
    r: Vec<Gpu>,
)
    requires
        191 - py <= i32::MAX,
        call_ensures(pick_3d, (view, px, py, items), r),
    ensures
        writes(r@, 0, GFX_VIEWPORT, 192int * 0x100 + 192 * 0x100_0000),
        writes(r@, 1, MATRIX_CONTROL, 0),
        writes(r@, 2, MATRIX_IDENTITY, 0),
        r@[3] == (Gpu::PickMatrix { x: px, y: (191 - py) as i32, width: 4, height: 4 }),
        r@[4] == (Gpu::Perspective {
            fovy: view.fovy,
            aspect: view.aspect,
            near: view.near,
            far: view.far,
        }),
        multiplies(r@, 7, view.rotation@),
        writes(r@, 26, GFX_POLY_FORMAT, 31int * 0x1_0000 + 0xc0),
{
    let v = view_commands(*view);
    let s = r@;
    assert(s == pick_start(*view, px, py) + pick_meshes(items@, items@.len()));
    assert(v.len() == 21);
    assert forall|k: int| 0 <= k < 21 implies #[trigger] s[5 + k] == v[k] by {}
    assert forall|k: int| 0 <= k < 16 implies puts(#[trigger] s[7 + k], MATRIX_MULT_4X4, view.rotation@[k]) by {
        assert(s[5 + (k + 2)] == v[k + 2]);
        assert(v[k + 2] == mult_matrix(view.rotation@)[k]);
    }
}

/// A mesh is tested under its own matrix: first where its origin lies, then what it
/// draws, counted before and after.
pub proof fn law_picked_mesh_is_counted_around(item: DrawItem, index: usize)
    ensures
        ({
            let s = pick_mesh(item, index);
            let n = s.len() as int;
            &&& writes(s, 0, MATRIX_PUSH, 0)
            &&& multiplies(s, 1, item.draw.model@)
            &&& s[17] == Gpu::WaitIdle
            &&& writes(s, 18, GFX_POS_TEST, 0)
            &&& writes(s, 19, GFX_POS_TEST, 0)
            &&& s[20] == Gpu::CountPolygons
            &&& item.baked ==> s.subrange(21, n - 3) == seq![Gpu::CallList { mesh: index }]
            &&& !item.baked ==> s.subrange(21, n - 3) == primitive(item.tris@, Attribute::Bare)
            &&& s[n - 3] == Gpu::WaitIdle
            &&& s[n - 2] == Gpu::CountPolygons
            &&& writes(s, n - 1, MATRIX_POP, 1)
        }),
{
    let s = pick_mesh(item, index);
    let m = item.draw.model@;
    let body = if item.baked {
        seq![Gpu::CallList { mesh: index }]
    } else {
        primitive(item.tris@, Attribute::Bare)
    };
    assert(mult_matrix(m).len() == 16);
    assert(s.len() == 24 + body.len());
    assert forall|k: int| 0 <= k < 16 implies puts(#[trigger] s[1 + k], MATRIX_MULT_4X4, m[k]) by {
        assert(s[1 + k] == mult_matrix(m)[k]);
        lemma_matrix_words(m, k);
    }
    assert(s.subrange(21, s.len() - 3) =~= body);
}

proof fn lemma_pick_part(items: Seq<DrawItem>, n: nat, i: int)
    requires
        0 <= i < n <= items.len(),
        !items[i].draw.has_bounds || items[i].visible,
    ensures
        has_part(pick_meshes(items, n), pick_mesh(items[i], i as usize)),
    decreases n,
{
    let rest = pick_meshes(items, (n - 1) as nat);
    let own = if pickable(items[n - 1]) {
        pick_mesh(items[n - 1], (n - 1) as usize)
    } else {
        Seq::empty()
    };
    let part = pick_mesh(items[i], i as usize);
    if i < n - 1 {
        lemma_pick_part(items, (n - 1) as nat, i);
    } else {
        lemma_whole_part(part);
    }
    lemma_part_of_sum(rest, own, part);
}

/// A picking pass tests every mesh that has no bounds or is in sight.
pub proof fn law_pick_tests_each_mesh(
    view: &FrameView,
    px: i32,
    py: i32,
    items: &Vec<DrawItem>,
    r: Vec<Gpu>,
    i: int,
)
    requires
        call_ensures(pick_3d, (view, px, py, items), r),
        0 <= i < items@.len(),
        !items@[i].draw.has_bounds || items@[i].visible,
    ensures
        has_part(r@, pick_mesh(items@[i], i as usize)),
{
    lemma_pick_part(items@, items@.len(), i);
    lemma_part_of_sum(
        pick_start(*view, px, py),
        pick_meshes(items@, items@.len()),
        pick_mesh(items@[i], i as usize),
    );
}

/// What is picked drew something under the pen, and of all that did none is nearer;
/// nothing is picked only where nothing drew.
pub proof fn law_pick_takes_the_nearest(readings: &Vec<PickReading>, r: Option<u64>)
    requires
        call_ensures(pick_nearest, (readings,), r),
    ensures
        r is None <==> forall|j: int|
            0 <= j < readings@.len() ==> (#[trigger] readings@[j]).after <= readings@[j].before,
        r matches Some(e) ==> exists|k: int|
            0 <= k < readings@.len() && (#[trigger] readings@[k]).entity == e && readings@[k].after
                > readings@[k].before && forall|j: int|
                0 <= j < readings@.len() && (#[trigger] readings@[j]).after > readings@[j].before
                    ==> readings@[k].distance <= readings@[j].distance,
{
    let n = readings@.len() as int;
    assert(no_hit(readings@, n) <==> forall|j: int|
        0 <= j < n ==> (#[trigger] readings@[j]).after <= readings@[j].before) by {
        if forall|j: int| 0 <= j < n ==> (#[trigger] readings@[j]).after <= readings@[j].before {
            assert forall|j: int| 0 <= j < n implies !hit(#[trigger] readings@[j]) by {}
        }
        if no_hit(readings@, n) {
            assert forall|j: int| 0 <= j < n implies (#[trigger] readings@[j]).after
                <= readings@[j].before by {
                assert(!hit(readings@[j]));
            }
        }
    }
    if let Some(e) = r {
        let k = choose|k: int| #[trigger]
            nearest_hit(readings@, n, k) && readings@[k].entity == e;
        assert forall|j: int|
            0 <= j < n && (#[trigger] readings@[j]).after > readings@[j].before implies readings@[k].distance
            <= readings@[j].distance by {
            assert(hit(readings@[j]));
        }
        assert(readings@[k].entity == e);
    }
}

/// A mesh whose placement or shape changed is drawn with the matrix of its placement
/// from then on, and within the bounds it was given; otherwise nothing changes.
pub proof fn law_redrawn_mesh_stands_where_placed(
    before: MeshDraw,
    after: MeshDraw,
    moved: bool,
    reshaped: bool,
    placed: Placed,
    bounds: Option<(Vec3, Vec3)>,
    m: [i32; 16],
)
    requires
        redrawn(before, after, moved, reshaped, placed, bounds),
        call_ensures(model_matrix, (placed.translation, placed.sincos, placed.scale), m),
    ensures
        moved || reshaped ==> after.model@ == m@,
        moved || reshaped ==> (after.has_bounds <==> bounds is Some),
        (moved || reshaped) && bounds is Some ==> after.world_min == (bounds->0).0
            && after.world_max == (bounds->0).1,
        !moved && !reshaped ==> after == before,
{
    if moved || reshaped {
        assert forall|k: int| 0 <= k < 16 implies after.model@[k] == m@[k] by {
            let (row, col) = (k % 4, k / 4);
            assert(k == 4 * col + row);
            assert(after.model@[4 * col + row] == m@[4 * col + row]);
        }
        assert(after.model@ =~= m@);
    }
}

/// Setting the fog's depth replaces four bits of the control register, from bit eight
/// on, and leaves the others.
pub proof fn law_fog_shift_has_four_bits(control: u16, shift: u16, r: u16)
    requires
        call_ensures(fog_control, (control, shift), r),
    ensures
        r & 0xf0ff == control & 0xf0ff,
        (r >> 8) & 0xf == shift & 0xf,
{
    assert(r & 0xf0ff == (r / 0x1000) * 0x1000 + r % 0x100) by (bit_vector);
    assert(control & 0xf0ff == (control / 0x1000) * 0x1000 + control % 0x100) by (bit_vector);
    assert((r >> 8) & 0xf == (r / 0x100) % 0x10) by (bit_vector);
    assert(shift & 0xf == shift % 0x10) by (bit_vector);
}

/// The top bit of the power register says that the main engine drives the top screen;
/// choosing leaves the others.
pub proof fn law_screens_swap_by_the_top_bit(power: u16, on_top: bool, r: u16)
    requires
        call_ensures(main_lcd, (power, on_top), r),
    ensures
        r & 0x7fff == power & 0x7fff,
        r >> 15 == if on_top {
            1u16
        } else {
            0
        },
{
    assert(r & 0x7fff == r % 0x8000) by (bit_vector);
    assert(power & 0x7fff == power % 0x8000) by (bit_vector);
    assert(r >> 15 == if r >= 0x8000 {
        1u16
    } else {
        0
    }) by (bit_vector);
}

/// An angle is brought into one circle by whole turns.
pub proof fn law_angle_is_reduced_by_whole_turns(angle: i32, r: i16)
    requires
        call_ensures(reduce_angle, (angle,), r),
    ensures
        0 <= r < 0x8000,
        (angle - r) % 0x8000 == 0,
{
}

/// Outlines are drawn in one colour, for all polygons alike, once all eight entries of
/// its table hold it.
pub proof fn law_outline_fills_its_table(color: u32, r: Vec<Gpu>, k: int)
    requires
        call_ensures(set_outline, (true, color), r),
        0 <= k < 8,
    ensures
        r@.len() == 9,
        r@[k] == (Gpu::WriteHalf {
            reg: (GFX_EDGE_TABLE + 2 * k) as u32,
            value: (color % 0x1_0000) as u16,
        }),
        r@[8] == (Gpu::SetBits { reg: GFX_CONTROL, bits: 0x20 }),
{
}

/// Bringing the engine up powers it before anything else, clears to an opaque colour at
/// the far plane, opens the whole screen, smooths edges, and turns fog on only once its
/// colour, offset and densities are set; the densities rise evenly from none to all.
pub proof fn law_init_brings_the_engine_up(r: Vec<Gpu>, k: int)
    requires
        call_ensures(init_3d, (), r),
        0 <= k < 32,
    ensures
        r@[0] == (Gpu::SetBits { reg: REG_POWERCNT, bits: 0xc }),
        writes(r@, 1, REG_DISPCNT, 0x1_0108),
        r@[2] == Gpu::Init,
        r@[3] matches Gpu::ClearColor { a, .. } && a == 31,
        r@[4] == (Gpu::WriteHalf { reg: GFX_CLEAR_DEPTH, value: 0x7fff }),
        writes(r@, 5, GFX_VIEWPORT, 255int * 0x1_0000 + 191 * 0x100_0000),
        r@[6] == (Gpu::SetBits { reg: GFX_CONTROL, bits: 0x10 }),
        r@[7] == Gpu::ClearFog,
        r@[8] matches Gpu::Write { reg, value } && reg == GFX_FOG_COLOR && value as int / 0x1_0000
            == 31,
        writes(r@, 9, GFX_FOG_OFFSET, 0x7e00),
        r@[10] == (Gpu::FogShift { shift: 6 }),
        r@[11 + k] matches Gpu::WriteByte { reg, value } && reg == GFX_FOG_TABLE + k && 31 * value
            <= 127 * k < 31 * (value + 1),
        r@[43] == (Gpu::SetBits { reg: GFX_CONTROL, bits: 0x80 }),
        r@.len() == 44,
{
    let s = init_commands();
    assert(fog_table().len() == 32);
    assert(s[11 + k] == fog_table()[k]);
    assert(s[43] == (Gpu::SetBits { reg: GFX_CONTROL, bits: 0x80 }));
}

} // verus!
