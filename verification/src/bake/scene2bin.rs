//! Level baking: the authoring model of levels, zones and prefabs, and the writer
//! of the per-zone `.scene` blob.

use crate::bytes::{push_u16, push_u32, u16_le, u32_le};
use crate::float::F32Bits;
use crate::scene::asset::{
    header_le, instance_body_le, instance_le, instances_le, material_le, mesh_name, parse,
    CameraMode, InstanceView, SceneData,
};
use crate::scene::wire::{
    floats_le, points_le, points_of, push_f32, push_path, push_string, push_vec3, text_le,
};
use crate::scene::zone::{
    conn_le, conns_le, law_zone_round_trip, zone_fits, zone_le, ConnView, ZoneView, ZONE_VERSION,
};
use vstd::prelude::*;

verus! {

/// ASCII `"BSC1"`, low byte first: the magic prefix of a baked scene.
pub const ASSET_MAGIC: u32 = 0x3143_5342;

/// Format version of a baked zone: bounds and derived connections stand where
/// version 1 had authored exits.
pub const VERSION: u16 = ZONE_VERSION;

/// Extension of a baked zone.
pub const ASSET_EXT: &'static str = "scene";

/// Subdirectory under the filesystem root that holds baked levels.
pub const NITROFS_SUBDIR: &'static str = "levels";

/// File name of a level's manifest within its directory.
pub const MANIFEST_NAME: &'static str = "level.ron";

/// A rectangle on the ground plane.
#[derive(Clone, Copy, Debug)]
pub struct Bounds {
    pub min: [F32Bits; 2],
    pub max: [F32Bits; 2],
}

impl Default for Bounds {
    /// A pad from -2 to 2 on both axes.
    fn default() -> (r: Self)
        ensures
            r.min@ == seq![F32Bits(0xc000_0000), F32Bits(0xc000_0000)],
            r.max@ == seq![F32Bits(0x4000_0000), F32Bits(0x4000_0000)],
    {
        let r = Bounds {
            min: [F32Bits(0xc000_0000), F32Bits(0xc000_0000)],
            max: [F32Bits(0x4000_0000), F32Bits(0x4000_0000)],
        };
        assert(r.min@ =~= seq![F32Bits(0xc000_0000), F32Bits(0xc000_0000)]);
        assert(r.max@ =~= seq![F32Bits(0x4000_0000), F32Bits(0x4000_0000)]);
        r
    }
}

/// Authored camera of a zone.
#[derive(Clone, Copy, Debug, PartialEq, Eq, Structural)]
pub enum Camera {
    Follow { height: F32Bits, dist: F32Bits, pitch: F32Bits },
    TopDown { height: F32Bits },
    Rail2_5D { height: F32Bits, dist: F32Bits, pitch: F32Bits },
    CaptureFraming,
}

impl Default for Camera {
    /// A follow camera: height 1.7, distance 2, pitch -0.7.
    fn default() -> (r: Self)
        ensures
            r == (Camera::Follow {
                height: F32Bits(0x3fd9_999a),
                dist: F32Bits(0x4000_0000),
                pitch: F32Bits(0xbf33_3333),
            }),
    {
        Camera::Follow {
            height: F32Bits(0x3fd9_999a),
            dist: F32Bits(0x4000_0000),
            pitch: F32Bits(0xbf33_3333),
        }
    }
}

/// The camera as a scene holds it.
pub open spec fn scene_camera(c: Camera) -> CameraMode {
    match c {
        Camera::Follow { height, dist, pitch } => CameraMode::Follow { height, dist, pitch },
        Camera::TopDown { height } => CameraMode::TopDown { height },
        Camera::Rail2_5D { height, dist, pitch } => CameraMode::Rail2_5D { height, dist, pitch },
        Camera::CaptureFraming => CameraMode::CaptureFraming,
    }
}

/// Lit-material colours.
#[derive(Clone, Copy, Debug, PartialEq, Eq)]
pub struct Material {
    pub diffuse: [u8; 3],
    pub ambient: [u8; 3],
}

/// A material by its colours.
pub open spec fn material_view(m: Option<Material>) -> Option<(Seq<u8>, Seq<u8>)> {
    match m {
        Some(m) => Some((m.diffuse@, m.ambient@)),
        None => None,
    }
}

/// A mesh name by its characters.
pub open spec fn name_view(m: Option<String>) -> Option<Seq<char>> {
    match m {
        Some(m) => Some(m@),
        None => None,
    }
}

/// One placed object.
#[derive(Debug)]
pub struct Instance {
    /// Bare mesh name; `None` for a transform-only marker.
    pub mesh: Option<String>,
    /// Semantic tag, for the game to interpret.
    pub role: String,
    pub pos: [F32Bits; 3],
    pub rot: [F32Bits; 3],
    pub scale: [F32Bits; 3],
    pub material: Option<Material>,
    pub flags: u32,
    /// Waypoints on the ground plane.
    pub path: Vec<[F32Bits; 2]>,
}

impl View for Instance {
    type V = InstanceView;

    open spec fn view(&self) -> InstanceView {
        InstanceView {
            mesh: name_view(self.mesh),
            role: self.role@,
            pos: self.pos@,
            rot: self.rot@,
            scale: self.scale@,
            material: material_view(self.material),
            flags: self.flags,
            path: points_of(self.path@),
        }
    }
}

/// The instances of a list by their values.
pub open spec fn placed_views(v: Seq<Instance>) -> Seq<InstanceView> {
    Seq::new(v.len(), |i: int| v[i]@)
}

/// A zone, fully resolved. Where it stands on the map is for deriving its
/// connections only and is not written.
pub struct Space {
    pub camera: Camera,
    pub place: [F32Bits; 2],
    pub bounds: Bounds,
    pub instances: Vec<Instance>,
}

/// West, the edge at the smaller `x`.
pub const SIDE_WEST: u8 = 0;

/// East, the edge at the larger `x`.
pub const SIDE_EAST: u8 = 1;

/// South, the edge at the smaller `z`.
pub const SIDE_SOUTH: u8 = 2;

/// North, the edge at the larger `z`.
pub const SIDE_NORTH: u8 = 3;

/// A derived connection across a shared edge to a neighbour.
#[derive(Debug)]
pub struct Connection {
    pub neighbour: String,
    /// Which edge of this zone it crosses.
    pub side: u8,
    /// The segment of the edge, in this zone's coordinates.
    pub lo: F32Bits,
    pub hi: F32Bits,
    /// What crossing adds to a position to express it in the neighbour's frame.
    pub delta: [F32Bits; 2],
    pub gate: u32,
}

impl View for Connection {
    type V = ConnView;

    open spec fn view(&self) -> ConnView {
        ConnView {
            neighbour: self.neighbour@,
            side: self.side,
            span: seq![self.lo, self.hi, self.delta@[0], self.delta@[1]],
            gate: self.gate,
        }
    }
}

/// The connections of a list by their values.
pub open spec fn conn_views(v: Seq<Connection>) -> Seq<ConnView> {
    Seq::new(v.len(), |i: int| v[i]@)
}

/// The four words of a rectangle.
pub open spec fn bounds_view(b: Bounds) -> Seq<F32Bits> {
    seq![b.min@[0], b.min@[1], b.max@[0], b.max@[1]]
}

/// What the blob of a zone with these connections holds.
pub open spec fn zone_view(space: Space, conns: Seq<Connection>) -> ZoneView {
    ZoneView {
        camera: scene_camera(space.camera),
        instances: placed_views(space.instances@),
        bounds: bounds_view(space.bounds),
        conns: conn_views(conns),
    }
}

proof fn lemma_four_floats(v: Seq<F32Bits>)
    requires
        v.len() == 4,
    ensures
        floats_le(v) == u32_le(v[0].0) + u32_le(v[1].0) + u32_le(v[2].0) + u32_le(v[3].0),
{
    reveal_with_fuel(floats_le, 5);
    assert(floats_le(v) =~= u32_le(v[0].0) + u32_le(v[1].0) + u32_le(v[2].0) + u32_le(v[3].0));
}

/// Append four floats.
fn push_four(out: &mut Vec<u8>, a: F32Bits, b: F32Bits, c: F32Bits, d: F32Bits)
    ensures
        final(out)@ == old(out)@ + floats_le(seq![a, b, c, d]),
{
    push_f32(out, a);
    push_f32(out, b);
    push_f32(out, c);
    push_f32(out, d);
    proof {
        lemma_four_floats(seq![a, b, c, d]);
        assert(out@ =~= old(out)@ + floats_le(seq![a, b, c, d]));
    }
}

/// Append the header of a zone with this camera.
fn push_header(out: &mut Vec<u8>, camera: Camera)
    ensures
        final(out)@ == old(out)@ + header_le(VERSION, scene_camera(camera)),
{
    let zero = F32Bits::zero();
    push_u32(out, ASSET_MAGIC);
    push_u16(out, VERSION);
    match camera {
        Camera::Follow { height, dist, pitch } => {
            push_u16(out, 0);
            push_four(out, height, dist, pitch, zero);
        },
        Camera::TopDown { height } => {
            push_u16(out, 1);
            push_four(out, height, zero, zero, zero);
        },
        Camera::Rail2_5D { height, dist, pitch } => {
            push_u16(out, 2);
            push_four(out, height, dist, pitch, zero);
        },
        Camera::CaptureFraming => {
            push_u16(out, 3);
            push_four(out, zero, zero, zero, zero);
        },
    }
    assert(out@ =~= old(out)@ + header_le(VERSION, scene_camera(camera)));
}

/// Append a material, or zeros for none.
fn push_material(out: &mut Vec<u8>, material: Option<Material>)
    ensures
        final(out)@ == old(out)@ + material_le(material_view(material)),
{
    match material {
        Some(m) => {
            out.push(1);
            out.push(m.diffuse[0]);
            out.push(m.diffuse[1]);
            out.push(m.diffuse[2]);
            out.push(m.ambient[0]);
            out.push(m.ambient[1]);
            out.push(m.ambient[2]);
        },
        None => {
            out.push(0);
            out.push(0);
            out.push(0);
            out.push(0);
            out.push(0);
            out.push(0);
            out.push(0);
        },
    }
    assert(out@ =~= old(out)@ + material_le(material_view(material)));
}

/// Append one instance.
fn push_instance(out: &mut Vec<u8>, inst: &Instance)
    ensures
        final(out)@ == old(out)@ + instance_le(inst@),
{
    let ghost v = inst@;
    match &inst.mesh {
        Some(name) => push_string(out, name.as_str()),
        None => {
            push_string(out, "");
            proof {
                reveal_strlit("");
                assert(""@ =~= mesh_name(v.mesh));
            }
        },
    }
    push_string(out, inst.role.as_str());
    let ghost texts = out@;
    assert(texts =~= old(out)@ + text_le(mesh_name(v.mesh)) + text_le(v.role));
    push_instance_body(out, inst);
    assert(out@ =~= old(out)@ + instance_le(v));
}

/// Append what stands behind an instance's texts.
fn push_instance_body(out: &mut Vec<u8>, inst: &Instance)
    ensures
        final(out)@ == old(out)@ + instance_body_le(inst@),
{
    let ghost v = inst@;
    push_vec3(out, &inst.pos);
    push_vec3(out, &inst.rot);
    push_vec3(out, &inst.scale);
    push_material(out, inst.material);
    push_u32(out, inst.flags);
    push_u16(out, inst.path.len() as u16);
    push_path(out, &inst.path);
    proof {
        lemma_seven(
            old(out)@,
            floats_le(v.pos),
            floats_le(v.rot),
            floats_le(v.scale),
            material_le(v.material),
            u32_le(v.flags),
            u16_le(v.path.len() as u16),
            points_le(v.path),
        );
    }
}

/// Appending seven parts one by one appends their concatenation.
proof fn lemma_seven(
    o: Seq<u8>,
    a: Seq<u8>,
    b: Seq<u8>,
    c: Seq<u8>,
    d: Seq<u8>,
    e: Seq<u8>,
    f: Seq<u8>,
    g: Seq<u8>,
)
    ensures
        o + a + b + c + d + e + f + g == o + (a + (b + (c + (d + (e + (f + g)))))),
{
    assert(o + a + b + c + d + e + f + g =~= o + (a + (b + (c + (d + (e + (f + g)))))));
}

/// Append one connection.
fn push_connection(out: &mut Vec<u8>, c: &Connection)
    ensures
        final(out)@ == old(out)@ + conn_le(c@),
{
    push_string(out, c.neighbour.as_str());
    out.push(c.side);
    push_four(out, c.lo, c.hi, c.delta[0], c.delta[1]);
    push_u32(out, c.gate);
    assert(out@ =~= old(out)@ + conn_le(c@));
}

/// Encode a zone with its derived connections to the `.scene` blob.
pub fn encode(space: &Space, conns: &[Connection]) -> (out: Vec<u8>)
    ensures
        out@ == zone_le(zone_view(*space, conns@)),
{
    let ghost v = zone_view(*space, conns@);
    let mut out: Vec<u8> = Vec::new();
    push_header(&mut out, space.camera);
    push_u32(&mut out, space.instances.len() as u32);
    let ghost head = out@;
    let mut i: usize = 0;
    assert(v.instances.take(0) =~= Seq::empty());
    assert(out@ =~= head + instances_le(v.instances.take(0)));
    while i < space.instances.len()
        invariant
            i <= space.instances.len(),
            v == zone_view(*space, conns@),
            out@ == head + instances_le(v.instances.take(i as int)),
        decreases space.instances.len() - i,
    {
        push_instance(&mut out, &space.instances[i]);
        proof {
            let part = v.instances.take(i + 1);
            assert(part.drop_last() =~= v.instances.take(i as int));
            assert(part.last() == space.instances@[i as int]@);
            assert(out@ =~= head + instances_le(part));
        }
        i = i + 1;
    }
    assert(v.instances.take(i as int) =~= v.instances);
    push_four(
        &mut out,
        space.bounds.min[0],
        space.bounds.min[1],
        space.bounds.max[0],
        space.bounds.max[1],
    );
    push_u32(&mut out, conns.len() as u32);
    let ghost mid = out@;
    let mut j: usize = 0;
    assert(v.conns.take(0) =~= Seq::empty());
    assert(out@ =~= mid + conns_le(v.conns.take(0)));
    while j < conns.len()
        invariant
            j <= conns.len(),
            v == zone_view(*space, conns@),
            out@ == mid + conns_le(v.conns.take(j as int)),
        decreases conns.len() - j,
    {
        push_connection(&mut out, &conns[j]);
        proof {
            let part = v.conns.take(j + 1);
            assert(part.drop_last() =~= v.conns.take(j as int));
            assert(part.last() == conns@[j as int]@);
            assert(out@ =~= mid + conns_le(part));
        }
        j = j + 1;
    }
    assert(v.conns.take(j as int) =~= v.conns);
    proof {
        lemma_seven(
            Seq::empty(),
            Seq::empty(),
            header_le(VERSION, v.camera),
            u32_le(v.instances.len() as u32),
            instances_le(v.instances),
            floats_le(v.bounds),
            u32_le(v.conns.len() as u32),
            conns_le(v.conns),
        );
        assert(out@ =~= zone_le(v));
    }
    out
}

/// The loader reads what the baker writes: whatever [`parse`] answers to the bytes
/// of [`encode`] is the zone with its camera, instances, bounds and connections.
pub proof fn law_loader_reads_baked_zone(
    space: &Space,
    conns: &[Connection],
    out: Vec<u8>,
    blob: &[u8],
    x: Option<SceneData>,
)
    requires
        zone_fits(zone_view(*space, conns@)),
        call_ensures(encode, (space, conns), out),
        blob@ == out@,
        call_ensures(parse, (blob,), x),
    ensures
        x matches Some(d) && d.holds_zone(zone_view(*space, conns@)),
{
    let v = zone_view(*space, conns@);
    law_zone_round_trip(v, Seq::empty());
    assert(zone_le(v) + Seq::<u8>::empty() =~= zone_le(v));
}

} // verus!
