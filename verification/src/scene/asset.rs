//! Reader of the baked `.scene` blob. All words are little-endian:
//!
//! | bytes     | field                                                   |
//! |-----------|---------------------------------------------------------|
//! | 4         | magic `"BSC1"`                                          |
//! | 2         | format version                                          |
//! | 2         | camera mode (follow, top-down, rail, capture)           |
//! | 16        | four camera parameters, by mode                         |
//! | 4         | instance count, then the instances                      |
//! |           | what follows the instances, by version                  |
//!
//! An instance is its mesh name (empty for none) and role, position, rotation and
//! scale, a material flag and two colours, flags, and a counted path of ground
//! points. Version 1 ends with a counted list of authored exits: an exit is its
//! target's name, a position and a gate number. Version 2, a baked zone, ends with
//! its bounds and a counted list of connections (see [`crate::scene::zone`]).

use crate::bytes::{u16_at, u16_le, u32_at, u32_le};
use crate::float::F32Bits;
use crate::scene::wire::{
    floats_at, floats_le, holds_at, lemma_floats_at, lemma_floats_len, lemma_holds_split,
    lemma_holds_whole, lemma_points_at, lemma_points_len, lemma_text_at, lemma_text_in_prefix,
    lemma_u16_holds, lemma_u32_holds, points_at, points_le, points_of, text_at, text_le, Point,
    Reader,
};
use crate::scene::zone::{
    conn_at, conns_at, lemma_conns_none, lemma_zone_in_prefix, zone_at, ConnView, ZoneView,
    ZONE_VERSION,
};
use vstd::prelude::*;
use vstd::utf8::encode_utf8;

verus! {

/// ASCII `"BSC1"`, low byte first.
pub const MAGIC: u32 = 0x3143_5342;

/// The format version of a space with authored exits.
pub const VERSION: u16 = 1;

/// Authored camera framing of a space.
#[derive(Clone, Copy, Debug, PartialEq, Eq, Structural)]
pub enum CameraMode {
    /// Soft follow: above and behind the avatar with a fixed pitch.
    Follow { height: F32Bits, dist: F32Bits, pitch: F32Bits },
    /// Straight down.
    TopDown { height: F32Bits },
    /// Side-on rail.
    Rail2_5D { height: F32Bits, dist: F32Bits, pitch: F32Bits },
    /// Capture framing.
    CaptureFraming,
}

/// The mode number of a camera.
pub open spec fn camera_mode(c: CameraMode) -> u16 {
    match c {
        CameraMode::Follow { .. } => 0,
        CameraMode::TopDown { .. } => 1,
        CameraMode::Rail2_5D { .. } => 2,
        CameraMode::CaptureFraming => 3,
    }
}

/// The four parameters of a camera, unused ones zero.
pub open spec fn camera_params(c: CameraMode) -> Seq<F32Bits> {
    let z = F32Bits(0);
    match c {
        CameraMode::Follow { height, dist, pitch } => seq![height, dist, pitch, z],
        CameraMode::TopDown { height } => seq![height, z, z, z],
        CameraMode::Rail2_5D { height, dist, pitch } => seq![height, dist, pitch, z],
        CameraMode::CaptureFraming => seq![z, z, z, z],
    }
}

/// The camera with this mode number and these parameters.
pub open spec fn camera_of(mode: u16, p: Seq<F32Bits>) -> Option<CameraMode> {
    if mode == 0 {
        Some(CameraMode::Follow { height: p[0], dist: p[1], pitch: p[2] })
    } else if mode == 1 {
        Some(CameraMode::TopDown { height: p[0] })
    } else if mode == 2 {
        Some(CameraMode::Rail2_5D { height: p[0], dist: p[1], pitch: p[2] })
    } else if mode == 3 {
        Some(CameraMode::CaptureFraming)
    } else {
        None
    }
}

impl CameraMode {
    /// The camera with this mode number and these parameters.
    pub fn from_wire(mode: u16, p: [F32Bits; 4]) -> (r: Option<Self>)
        ensures
            r == camera_of(mode, p@),
    {
        if mode == 0 {
            Some(CameraMode::Follow { height: p[0], dist: p[1], pitch: p[2] })
        } else if mode == 1 {
            Some(CameraMode::TopDown { height: p[0] })
        } else if mode == 2 {
            Some(CameraMode::Rail2_5D { height: p[0], dist: p[1], pitch: p[2] })
        } else if mode == 3 {
            Some(CameraMode::CaptureFraming)
        } else {
            None
        }
    }
}

/// One authored object: a mesh, where it stands, and an opaque role.
#[derive(Debug, PartialEq)]
pub struct SceneInstanceData {
    /// Bare mesh name; `None` for a transform-only marker.
    pub mesh: Option<String>,
    /// Semantic tag, for the game to interpret.
    pub role: String,
    pub pos: [F32Bits; 3],
    pub rot: [F32Bits; 3],
    pub scale: [F32Bits; 3],
    /// Diffuse and ambient colour of the lit material.
    pub material: Option<([u8; 3], [u8; 3])>,
    /// Opaque flags.
    pub flags: u32,
    /// Waypoints on the ground plane.
    pub path: Vec<[F32Bits; 2]>,
}

/// An instance by its values.
#[verifier::ext_equal]
pub struct InstanceView {
    pub mesh: Option<Seq<char>>,
    pub role: Seq<char>,
    pub pos: Seq<F32Bits>,
    pub rot: Seq<F32Bits>,
    pub scale: Seq<F32Bits>,
    pub material: Option<(Seq<u8>, Seq<u8>)>,
    pub flags: u32,
    pub path: Seq<Point>,
}

impl View for SceneInstanceData {
    type V = InstanceView;

    open spec fn view(&self) -> InstanceView {
        InstanceView {
            mesh: match self.mesh {
                Some(m) => Some(m@),
                None => None,
            },
            role: self.role@,
            pos: self.pos@,
            rot: self.rot@,
            scale: self.scale@,
            material: match self.material {
                Some((d, a)) => Some((d@, a@)),
                None => None,
            },
            flags: self.flags,
            path: points_of(self.path@),
        }
    }
}

/// A way out of a space.
#[derive(Debug, PartialEq)]
pub struct SceneExitData {
    /// Name of the neighbouring space.
    pub target: String,
    pub at: [F32Bits; 3],
    /// Gate that must be satisfied; zero is always open.
    pub gate: u32,
}

/// An exit by its values.
#[verifier::ext_equal]
pub struct ExitView {
    pub target: Seq<char>,
    pub at: Seq<F32Bits>,
    pub gate: u32,
}

impl View for SceneExitData {
    type V = ExitView;

    open spec fn view(&self) -> ExitView {
        ExitView { target: self.target@, at: self.at@, gate: self.gate }
    }
}

/// A derived connection across a shared edge to a neighbouring zone.
#[derive(Debug, PartialEq)]
pub struct SceneConnData {
    /// Name of the neighbouring zone.
    pub neighbour: String,
    /// Which edge of this zone it crosses.
    pub side: u8,
    /// The segment of the edge, in this zone's coordinates.
    pub lo: F32Bits,
    pub hi: F32Bits,
    /// What crossing adds to a position to express it in the neighbour's frame.
    pub delta: [F32Bits; 2],
    /// Gate that must be satisfied; zero is always open.
    pub gate: u32,
}

impl View for SceneConnData {
    type V = ConnView;

    open spec fn view(&self) -> ConnView {
        ConnView {
            neighbour: self.neighbour@,
            side: self.side,
            span: seq![self.lo, self.hi, self.delta@[0], self.delta@[1]],
            gate: self.gate,
        }
    }
}

/// The walkable rectangle of a zone.
#[derive(Debug, PartialEq)]
pub struct SceneBoundsData {
    pub min: [F32Bits; 2],
    pub max: [F32Bits; 2],
}

impl View for SceneBoundsData {
    type V = Seq<F32Bits>;

    open spec fn view(&self) -> Seq<F32Bits> {
        seq![self.min@[0], self.min@[1], self.max@[0], self.max@[1]]
    }
}

/// A parsed space. One with authored exits has neither bounds nor connections; a
/// baked zone has both and no exits.
#[derive(Debug, PartialEq)]
pub struct SceneData {
    pub camera: CameraMode,
    pub instances: Vec<SceneInstanceData>,
    pub exits: Vec<SceneExitData>,
    pub bounds: Option<SceneBoundsData>,
    pub conns: Vec<SceneConnData>,
}

/// What a blob with authored exits holds.
#[verifier::ext_equal]
pub struct SceneView {
    pub camera: CameraMode,
    pub instances: Seq<InstanceView>,
    pub exits: Seq<ExitView>,
}

/// The instances of a list by their values.
pub open spec fn instance_views(v: Seq<SceneInstanceData>) -> Seq<InstanceView> {
    Seq::new(v.len(), |i: int| v[i]@)
}

/// The exits of a list by their values.
pub open spec fn exit_views(v: Seq<SceneExitData>) -> Seq<ExitView> {
    Seq::new(v.len(), |i: int| v[i]@)
}

/// The connections of a list by their values.
pub open spec fn conn_data_views(v: Seq<SceneConnData>) -> Seq<ConnView> {
    Seq::new(v.len(), |i: int| v[i]@)
}

impl SceneData {
    /// This is the space with authored exits `v`, and nothing else.
    pub open spec fn holds_scene(self, v: SceneView) -> bool {
        &&& self.camera == v.camera
        &&& instance_views(self.instances@) == v.instances
        &&& exit_views(self.exits@) == v.exits
        &&& self.bounds is None
        &&& self.conns@.len() == 0
    }

    /// This is the zone `v`, and nothing else.
    pub open spec fn holds_zone(self, v: ZoneView) -> bool {
        &&& self.camera == v.camera
        &&& instance_views(self.instances@) == v.instances
        &&& self.exits@.len() == 0
        &&& self.bounds matches Some(b) && b@ == v.bounds
        &&& conn_data_views(self.conns@) == v.conns
    }
}

/// The material at offset `p`: present where the first byte is not zero.
pub open spec fn material_at(s: Seq<u8>, p: int) -> Option<(Seq<u8>, Seq<u8>)> {
    if s[p] != 0 {
        Some((s.subrange(p + 1, p + 4), s.subrange(p + 4, p + 7)))
    } else {
        None
    }
}

/// A mesh name, where the empty one is none.
pub open spec fn mesh_of(name: Seq<char>) -> Option<Seq<char>> {
    if name.len() == 0 {
        None
    } else {
        Some(name)
    }
}

/// The instance at offset `p` and the offset behind it; nothing where the bytes
/// end early or a text is not UTF-8.
pub open spec fn instance_at(s: Seq<u8>, p: int) -> Option<(InstanceView, int)> {
    match text_at(s, p) {
        None => None,
        Some((mesh, p1)) => match text_at(s, p1) {
            None => None,
            Some((role, p2)) => {
                let n = u16_at(s, p2 + 47);
                let end = p2 + 49 + 8 * n;
                if p2 + 49 > s.len() || end > s.len() {
                    None
                } else {
                    Some(
                        (
                            InstanceView {
                                mesh: mesh_of(mesh),
                                role,
                                pos: floats_at(s, p2, 3),
                                rot: floats_at(s, p2 + 12, 3),
                                scale: floats_at(s, p2 + 24, 3),
                                material: material_at(s, p2 + 36),
                                flags: u32_at(s, p2 + 43),
                                path: points_at(s, p2 + 49, n as nat),
                            },
                            end,
                        ),
                    )
                }
            },
        },
    }
}

/// The `n` instances at offset `p` and the offset behind them.
pub open spec fn instances_at(s: Seq<u8>, p: int, n: nat) -> Option<(Seq<InstanceView>, int)>
    decreases n,
{
    if n == 0 {
        Some((Seq::empty(), p))
    } else {
        match instances_at(s, p, (n - 1) as nat) {
            None => None,
            Some((v, q)) => match instance_at(s, q) {
                None => None,
                Some((x, e)) => Some((v.push(x), e)),
            },
        }
    }
}

/// The exit at offset `p` and the offset behind it.
pub open spec fn exit_at(s: Seq<u8>, p: int) -> Option<(ExitView, int)> {
    match text_at(s, p) {
        None => None,
        Some((target, q)) => if q + 16 > s.len() {
            None
        } else {
            Some((ExitView { target, at: floats_at(s, q, 3), gate: u32_at(s, q + 12) }, q + 16))
        },
    }
}

/// The `n` exits at offset `p` and the offset behind them.
pub open spec fn exits_at(s: Seq<u8>, p: int, n: nat) -> Option<(Seq<ExitView>, int)>
    decreases n,
{
    if n == 0 {
        Some((Seq::empty(), p))
    } else {
        match exits_at(s, p, (n - 1) as nat) {
            None => None,
            Some((v, q)) => match exit_at(s, q) {
                None => None,
                Some((x, e)) => Some((v.push(x), e)),
            },
        }
    }
}

/// The camera of a scene blob whose header has this version; nothing on a short
/// header, a wrong magic or version, or an unknown mode.
pub open spec fn header_at(s: Seq<u8>, version: u16) -> Option<CameraMode> {
    if s.len() < 24 || u32_at(s, 0) != MAGIC || u16_at(s, 4) != version {
        None
    } else {
        camera_of(u16_at(s, 6), floats_at(s, 8, 4))
    }
}

/// The space in a blob and the offset behind it.
pub open spec fn scene_at(s: Seq<u8>) -> Option<(SceneView, int)> {
    match header_at(s, VERSION) {
        None => None,
        Some(camera) => if s.len() < 28 {
            None
        } else {
            match instances_at(s, 28, u32_at(s, 24) as nat) {
                None => None,
                Some((instances, p)) => if p + 4 > s.len() {
                    None
                } else {
                    match exits_at(s, p + 4, u32_at(s, p) as nat) {
                        None => None,
                        Some((exits, e)) => Some((SceneView { camera, instances, exits }, e)),
                    }
                },
            }
        },
    }
}

/// Where the first instances do not parse, more do not either.
proof fn lemma_instances_none(s: Seq<u8>, p: int, k: nat, n: nat)
    requires
        k <= n,
        instances_at(s, p, k) is None,
    ensures
        instances_at(s, p, n) is None,
    decreases n,
{
    if k < n {
        lemma_instances_none(s, p, k, (n - 1) as nat);
    }
}

proof fn lemma_exits_none(s: Seq<u8>, p: int, k: nat, n: nat)
    requires
        k <= n,
        exits_at(s, p, k) is None,
    ensures
        exits_at(s, p, n) is None,
    decreases n,
{
    if k < n {
        lemma_exits_none(s, p, k, (n - 1) as nat);
    }
}

/// Read one instance.
fn read_instance(r: &mut Reader) -> (x: Option<SceneInstanceData>)
    requires
        old(r).wf(),
    ensures
        final(r).wf(),
        final(r).bytes@ == old(r).bytes@,
        x is Some <==> instance_at(old(r).bytes@, old(r).pos as int) is Some,
        x matches Some(i) ==> instance_at(old(r).bytes@, old(r).pos as int) == Some(
            (i@, final(r).pos as int),
        ),
{
    let name: String = r.string()?;
    let role: String = r.string()?;
    let ghost p = r.pos as int;
    let ghost s = r.bytes@;
    let pos: [F32Bits; 3] = r.vec3()?;
    let rot: [F32Bits; 3] = r.vec3()?;
    let scale: [F32Bits; 3] = r.vec3()?;
    let has_material: bool = r.u8()? != 0;
    let diffuse: [u8; 3] = r.rgb()?;
    let ambient: [u8; 3] = r.rgb()?;
    let flags: u32 = r.u32()?;
    let n: u16 = r.u16()?;
    let path: Vec<[F32Bits; 2]> = r.points(n)?;
    let ghost mesh_text = name@;
    let mesh: Option<String> = if name.as_str().is_empty() {
        None
    } else {
        Some(name)
    };
    let material: Option<([u8; 3], [u8; 3])> = if has_material {
        Some((diffuse, ambient))
    } else {
        None
    };
    let x = SceneInstanceData { mesh, role, pos, rot, scale, material, flags, path };
    assert(x@.mesh == mesh_of(mesh_text));
    assert(x@.material == material_at(s, p + 36));
    Some(x)
}

/// Read one exit.
fn read_exit(r: &mut Reader) -> (x: Option<SceneExitData>)
    requires
        old(r).wf(),
    ensures
        final(r).wf(),
        final(r).bytes@ == old(r).bytes@,
        x is Some <==> exit_at(old(r).bytes@, old(r).pos as int) is Some,
        x matches Some(i) ==> exit_at(old(r).bytes@, old(r).pos as int) == Some(
            (i@, final(r).pos as int),
        ),
{
    let target: String = r.string()?;
    let at: [F32Bits; 3] = r.vec3()?;
    let gate: u32 = r.u32()?;
    Some(SceneExitData { target, at, gate })
}

/// Read the instances of a counted list.
fn read_instances(r: &mut Reader, n: u32) -> (x: Option<Vec<SceneInstanceData>>)
    requires
        old(r).wf(),
    ensures
        final(r).wf(),
        final(r).bytes@ == old(r).bytes@,
        x is Some <==> instances_at(old(r).bytes@, old(r).pos as int, n as nat) is Some,
        x matches Some(v) ==> instances_at(old(r).bytes@, old(r).pos as int, n as nat) == Some(
            (instance_views(v@), final(r).pos as int),
        ),
{
    let ghost s = r.bytes@;
    let ghost p = r.pos as int;
    let mut instances: Vec<SceneInstanceData> = Vec::new();
    let mut i: u32 = 0;
    assert(instance_views(instances@) =~= Seq::<InstanceView>::empty());
    while i < n
        invariant
            s == old(r).bytes@,
            p == old(r).pos,
            r.wf(),
            r.bytes@ == s,
            i <= n,
            instances_at(s, p, i as nat) == Some((instance_views(instances@), r.pos as int)),
        decreases n - i,
    {
        let ghost before = instances@;
        proof {
            if instance_at(s, r.pos as int) is None {
                assert(instances_at(s, p, (i + 1) as nat) is None);
                lemma_instances_none(s, p, (i + 1) as nat, n as nat);
            }
        }
        let x: SceneInstanceData = read_instance(r)?;
        let ghost v = x@;
        instances.push(x);
        assert(instance_views(instances@) =~= instance_views(before).push(v));
        i = i + 1;
    }
    Some(instances)
}

/// Read the exits of a counted list.
fn read_exits(r: &mut Reader, n: u32) -> (x: Option<Vec<SceneExitData>>)
    requires
        old(r).wf(),
    ensures
        final(r).wf(),
        final(r).bytes@ == old(r).bytes@,
        x is Some <==> exits_at(old(r).bytes@, old(r).pos as int, n as nat) is Some,
        x matches Some(v) ==> exits_at(old(r).bytes@, old(r).pos as int, n as nat) == Some(
            (exit_views(v@), final(r).pos as int),
        ),
{
    let ghost s = r.bytes@;
    let ghost p = r.pos as int;
    let mut exits: Vec<SceneExitData> = Vec::new();
    let mut i: u32 = 0;
    assert(exit_views(exits@) =~= Seq::<ExitView>::empty());
    while i < n
        invariant
            s == old(r).bytes@,
            p == old(r).pos,
            r.wf(),
            r.bytes@ == s,
            i <= n,
            exits_at(s, p, i as nat) == Some((exit_views(exits@), r.pos as int)),
        decreases n - i,
    {
        let ghost before = exits@;
        proof {
            if exit_at(s, r.pos as int) is None {
                assert(exits_at(s, p, (i + 1) as nat) is None);
                lemma_exits_none(s, p, (i + 1) as nat, n as nat);
            }
        }
        let x: SceneExitData = read_exit(r)?;
        let ghost v = x@;
        exits.push(x);
        assert(exit_views(exits@) =~= exit_views(before).push(v));
        i = i + 1;
    }
    Some(exits)
}

/// Read one connection.
fn read_conn(r: &mut Reader) -> (x: Option<SceneConnData>)
    requires
        old(r).wf(),
    ensures
        final(r).wf(),
        final(r).bytes@ == old(r).bytes@,
        x is Some <==> conn_at(old(r).bytes@, old(r).pos as int) is Some,
        x matches Some(c) ==> conn_at(old(r).bytes@, old(r).pos as int) == Some(
            (c@, final(r).pos as int),
        ),
{
    let neighbour: String = r.string()?;
    let ghost q = r.pos as int;
    let side: u8 = r.u8()?;
    let span: [F32Bits; 4] = r.vec4()?;
    let gate: u32 = r.u32()?;
    let x = SceneConnData {
        neighbour,
        side,
        lo: span[0],
        hi: span[1],
        delta: [span[2], span[3]],
        gate,
    };
    assert(x@.span =~= floats_at(r.bytes@, q + 1, 4));
    Some(x)
}

/// Read the connections of a counted list.
fn read_conns(r: &mut Reader, n: u32) -> (x: Option<Vec<SceneConnData>>)
    requires
        old(r).wf(),
    ensures
        final(r).wf(),
        final(r).bytes@ == old(r).bytes@,
        x is Some <==> conns_at(old(r).bytes@, old(r).pos as int, n as nat) is Some,
        x matches Some(v) ==> conns_at(old(r).bytes@, old(r).pos as int, n as nat) == Some(
            (conn_data_views(v@), final(r).pos as int),
        ),
{
    let ghost s = r.bytes@;
    let ghost p = r.pos as int;
    let mut conns: Vec<SceneConnData> = Vec::new();
    let mut i: u32 = 0;
    assert(conn_data_views(conns@) =~= Seq::<ConnView>::empty());
    while i < n
        invariant
            s == old(r).bytes@,
            p == old(r).pos,
            r.wf(),
            r.bytes@ == s,
            i <= n,
            conns_at(s, p, i as nat) == Some((conn_data_views(conns@), r.pos as int)),
        decreases n - i,
    {
        let ghost before = conns@;
        proof {
            if conn_at(s, r.pos as int) is None {
                assert(conns_at(s, p, (i + 1) as nat) is None);
                lemma_conns_none(s, p, (i + 1) as nat, n as nat);
            }
        }
        let x: SceneConnData = read_conn(r)?;
        let ghost v = x@;
        conns.push(x);
        assert(conn_data_views(conns@) =~= conn_data_views(before).push(v));
        i = i + 1;
    }
    Some(conns)
}

/// Read the header: the version and the camera.
fn read_header(r: &mut Reader) -> (x: Option<(u16, CameraMode)>)
    requires
        old(r).wf(),
        old(r).pos == 0,
    ensures
        final(r).wf(),
        final(r).bytes@ == old(r).bytes@,
        x is Some <==> header_at(old(r).bytes@, u16_at(old(r).bytes@, 4)) is Some,
        x matches Some((version, camera)) ==> version == u16_at(old(r).bytes@, 4) && header_at(
            old(r).bytes@,
            version,
        ) == Some(camera) && final(r).pos == 24,
{
    let ghost s = r.bytes@;
    if r.u32()? != MAGIC {
        return None;
    }
    let version: u16 = r.u16()?;
    let mode: u16 = r.u16()?;
    let params: [F32Bits; 4] = r.vec4()?;
    match CameraMode::from_wire(mode, params) {
        Some(camera) => Some((version, camera)),
        None => None,
    }
}

/// Parse a `.scene` blob of either version; bytes behind its last list are not
/// looked at. `None` on a wrong magic, an unknown version or camera mode, a text
/// that is not UTF-8 or a blob that ends early.
pub fn parse(bytes: &[u8]) -> (x: Option<SceneData>)
    ensures
        x is Some <==> scene_at(bytes@) is Some || zone_at(bytes@) is Some,
        scene_at(bytes@) matches Some((v, _)) ==> x matches Some(d) && d.holds_scene(v),
        zone_at(bytes@) matches Some((v, _)) ==> x matches Some(d) && d.holds_zone(v),
{
    let ghost s = bytes@;
    let mut r = Reader::new(bytes);
    let (version, camera) = read_header(&mut r)?;
    if version != VERSION && version != ZONE_VERSION {
        return None;
    }
    let n: u32 = r.u32()?;
    let instances: Vec<SceneInstanceData> = read_instances(&mut r, n)?;
    let ghost p = r.pos as int;
    if version == VERSION {
        let m: u32 = r.u32()?;
        let exits: Vec<SceneExitData> = read_exits(&mut r, m)?;
        Some(SceneData { camera, instances, exits, bounds: None, conns: Vec::new() })
    } else {
        let b: [F32Bits; 4] = r.vec4()?;
        let m: u32 = r.u32()?;
        let conns: Vec<SceneConnData> = read_conns(&mut r, m)?;
        let bounds = SceneBoundsData { min: [b[0], b[1]], max: [b[2], b[3]] };
        assert(bounds@ =~= floats_at(s, p, 4));
        Some(SceneData { camera, instances, exits: Vec::new(), bounds: Some(bounds), conns })
    }
}

/// A material as written: a flag byte, then two colours, all zero for none.
pub open spec fn material_le(m: Option<(Seq<u8>, Seq<u8>)>) -> Seq<u8> {
    match m {
        Some((d, a)) => seq![1u8] + (d + a),
        None => seq![0u8, 0, 0, 0, 0, 0, 0],
    }
}

/// The mesh name as written: empty for none.
pub open spec fn mesh_name(m: Option<Seq<char>>) -> Seq<char> {
    match m {
        Some(name) => name,
        None => Seq::empty(),
    }
}

/// The written form of an instance.
pub open spec fn instance_le(v: InstanceView) -> Seq<u8> {
    text_le(mesh_name(v.mesh)) + (text_le(v.role) + instance_body_le(v))
}

/// The written form of an instance behind its texts.
pub open spec fn instance_body_le(v: InstanceView) -> Seq<u8> {
    floats_le(v.pos) + (floats_le(v.rot) + (floats_le(v.scale) + (material_le(v.material) + (u32_le(
        v.flags,
    ) + (u16_le(v.path.len() as u16) + points_le(v.path))))))
}

/// A text short enough for its length word.
pub open spec fn short_text(t: Seq<char>) -> bool {
    encode_utf8(t).len() <= 0xffff
}

/// An instance that the format can hold: its lengths fit their words and a mesh,
/// where there is one, has a name.
pub open spec fn instance_fits(v: InstanceView) -> bool {
    &&& short_text(mesh_name(v.mesh))
    &&& short_text(v.role)
    &&& v.mesh matches Some(m) ==> m.len() > 0
    &&& v.pos.len() == 3 && v.rot.len() == 3 && v.scale.len() == 3
    &&& v.material matches Some((d, a)) ==> d.len() == 3 && a.len() == 3
    &&& v.path.len() <= 0xffff
}

/// A written instance reads back.
pub proof fn lemma_instance_at(s: Seq<u8>, p: int, v: InstanceView)
    requires
        holds_at(s, p, instance_le(v)),
        instance_fits(v),
    ensures
        instance_at(s, p) == Some((v, p + instance_le(v).len())),
{
    let mesh = text_le(mesh_name(v.mesh));
    let role = text_le(v.role);
    lemma_holds_split(s, p, mesh, role + instance_body_le(v));
    let p1 = p + mesh.len();
    lemma_text_at(s, p, mesh_name(v.mesh));
    lemma_holds_split(s, p1, role, instance_body_le(v));
    lemma_text_at(s, p1, v.role);
    let p2 = p1 + role.len();
    lemma_instance_body(s, p2, v);
    assert(mesh_of(mesh_name(v.mesh)) == v.mesh);
}

proof fn lemma_instance_body(s: Seq<u8>, p: int, v: InstanceView)
    requires
        holds_at(s, p, instance_body_le(v)),
        instance_fits(v),
    ensures
        instance_body_le(v).len() == 49 + 8 * v.path.len(),
        floats_at(s, p, 3) == v.pos,
        floats_at(s, p + 12, 3) == v.rot,
        floats_at(s, p + 24, 3) == v.scale,
        material_at(s, p + 36) == v.material,
        u32_at(s, p + 43) == v.flags,
        u16_at(s, p + 47) == v.path.len(),
        points_at(s, p + 49, v.path.len()) == v.path,
{
    lemma_floats_len(v.pos);
    lemma_floats_len(v.rot);
    lemma_floats_len(v.scale);
    lemma_points_len(v.path);
    let count = u16_le(v.path.len() as u16);
    let e = count + points_le(v.path);
    let d = u32_le(v.flags) + e;
    let c = material_le(v.material) + d;
    let b = floats_le(v.scale) + c;
    let a = floats_le(v.rot) + b;
    lemma_holds_split(s, p, floats_le(v.pos), a);
    lemma_holds_split(s, p + 12, floats_le(v.rot), b);
    lemma_holds_split(s, p + 24, floats_le(v.scale), c);
    lemma_holds_split(s, p + 36, material_le(v.material), d);
    lemma_holds_split(s, p + 43, u32_le(v.flags), e);
    lemma_holds_split(s, p + 47, count, points_le(v.path));
    lemma_floats_at(s, p, v.pos);
    lemma_floats_at(s, p + 12, v.rot);
    lemma_floats_at(s, p + 24, v.scale);
    lemma_u32_holds(s, p + 43, v.flags);
    lemma_u16_holds(s, p + 47, v.path.len() as u16);
    lemma_points_at(s, p + 49, v.path);
    lemma_material_at(s, p + 36, v.material);
}

proof fn lemma_material_at(s: Seq<u8>, p: int, m: Option<(Seq<u8>, Seq<u8>)>)
    requires
        holds_at(s, p, material_le(m)),
        m matches Some((d, a)) ==> d.len() == 3 && a.len() == 3,
    ensures
        material_at(s, p) == m,
{
    reveal(holds_at);
    match m {
        Some((d, a)) => {
            lemma_holds_split(s, p, seq![1u8], d + a);
            lemma_holds_split(s, p + 1, d, a);
            assert(s.subrange(p, p + 1)[0] == 1u8);
        },
        None => {
            assert(s.subrange(p, p + 7)[0] == 0u8);
        },
    }
}

/// Instances behind each other.
pub open spec fn instances_le(v: Seq<InstanceView>) -> Seq<u8>
    decreases v.len(),
{
    if v.len() == 0 {
        Seq::empty()
    } else {
        instances_le(v.drop_last()) + instance_le(v.last())
    }
}

/// Written instances read back.
pub proof fn lemma_instances_at(s: Seq<u8>, p: int, v: Seq<InstanceView>)
    requires
        holds_at(s, p, instances_le(v)),
        forall|i: int| 0 <= i < v.len() ==> instance_fits(#[trigger] v[i]),
    ensures
        instances_at(s, p, v.len()) == Some((v, p + instances_le(v).len())),
    decreases v.len(),
{
    if v.len() > 0 {
        let init = v.drop_last();
        lemma_holds_split(s, p, instances_le(init), instance_le(v.last()));
        assert forall|i: int| 0 <= i < init.len() implies instance_fits(#[trigger] init[i]) by {
            assert(init[i] == v[i]);
        }
        lemma_instances_at(s, p, init);
        assert(instance_fits(v[v.len() - 1]));
        lemma_instance_at(s, p + instances_le(init).len(), v.last());
        assert(init.push(v.last()) =~= v);
    } else {
        assert(v =~= Seq::empty());
    }
}

/// The written form of an exit.
pub open spec fn exit_le(v: ExitView) -> Seq<u8> {
    text_le(v.target) + (floats_le(v.at) + u32_le(v.gate))
}

/// Exits behind each other.
pub open spec fn exits_le(v: Seq<ExitView>) -> Seq<u8>
    decreases v.len(),
{
    if v.len() == 0 {
        Seq::empty()
    } else {
        exits_le(v.drop_last()) + exit_le(v.last())
    }
}

/// An exit that the format can hold.
pub open spec fn exit_fits(v: ExitView) -> bool {
    short_text(v.target) && v.at.len() == 3
}

proof fn lemma_exits_at(s: Seq<u8>, p: int, v: Seq<ExitView>)
    requires
        holds_at(s, p, exits_le(v)),
        forall|i: int| 0 <= i < v.len() ==> exit_fits(#[trigger] v[i]),
    ensures
        exits_at(s, p, v.len()) == Some((v, p + exits_le(v).len())),
    decreases v.len(),
{
    if v.len() > 0 {
        let init = v.drop_last();
        let last = v.last();
        lemma_holds_split(s, p, exits_le(init), exit_le(last));
        assert forall|i: int| 0 <= i < init.len() implies exit_fits(#[trigger] init[i]) by {
            assert(init[i] == v[i]);
        }
        lemma_exits_at(s, p, init);
        assert(exit_fits(v[v.len() - 1]));
        let q = p + exits_le(init).len();
        lemma_floats_len(last.at);
        lemma_holds_split(s, q, text_le(last.target), floats_le(last.at) + u32_le(last.gate));
        lemma_text_at(s, q, last.target);
        let q1 = q + text_le(last.target).len();
        lemma_holds_split(s, q1, floats_le(last.at), u32_le(last.gate));
        lemma_floats_at(s, q1, last.at);
        lemma_u32_holds(s, q1 + 12, last.gate);
        assert(init.push(last) =~= v);
    } else {
        assert(v =~= Seq::empty());
    }
}

/// The written form of a header.
pub open spec fn header_le(version: u16, camera: CameraMode) -> Seq<u8> {
    u32_le(MAGIC) + (u16_le(version) + (u16_le(camera_mode(camera)) + floats_le(
        camera_params(camera),
    )))
}

/// A written header reads back.
pub proof fn lemma_header_at(s: Seq<u8>, version: u16, camera: CameraMode)
    requires
        holds_at(s, 0, header_le(version, camera)),
    ensures
        header_le(version, camera).len() == 24,
        header_at(s, version) == Some(camera),
        u32_at(s, 0) == MAGIC,
        u16_at(s, 4) == version,
{
    let params = camera_params(camera);
    let mode = camera_mode(camera);
    lemma_floats_len(params);
    lemma_holds_split(
        s,
        0,
        u32_le(MAGIC),
        u16_le(version) + (u16_le(mode) + floats_le(params)),
    );
    lemma_holds_split(s, 4, u16_le(version), u16_le(mode) + floats_le(params));
    lemma_holds_split(s, 6, u16_le(mode), floats_le(params));
    lemma_u32_holds(s, 0, MAGIC);
    lemma_u16_holds(s, 4, version);
    lemma_u16_holds(s, 6, mode);
    lemma_floats_at(s, 8, params);
}

/// The written form of a space.
pub open spec fn scene_le(v: SceneView) -> Seq<u8> {
    header_le(VERSION, v.camera) + (u32_le(v.instances.len() as u32) + (instances_le(v.instances)
        + scene_tail_le(v)))
}

/// The exits of a space, as written behind its instances.
pub open spec fn scene_tail_le(v: SceneView) -> Seq<u8> {
    u32_le(v.exits.len() as u32) + exits_le(v.exits)
}

/// A space that the format can hold.
pub open spec fn scene_fits(v: SceneView) -> bool {
    &&& v.instances.len() <= u32::MAX
    &&& v.exits.len() <= u32::MAX
    &&& forall|i: int| 0 <= i < v.instances.len() ==> instance_fits(#[trigger] v.instances[i])
    &&& forall|i: int| 0 <= i < v.exits.len() ==> exit_fits(#[trigger] v.exits[i])
}

proof fn lemma_scene_tail(s: Seq<u8>, p: int, v: SceneView)
    requires
        holds_at(s, p, scene_tail_le(v)),
        scene_fits(v),
    ensures
        p + 4 <= s.len(),
        u32_at(s, p) == v.exits.len(),
        exits_at(s, p + 4, v.exits.len()) == Some((v.exits, p + scene_tail_le(v).len())),
{
    lemma_holds_split(s, p, u32_le(v.exits.len() as u32), exits_le(v.exits));
    lemma_u32_holds(s, p, v.exits.len() as u32);
    lemma_exits_at(s, p + 4, v.exits);
}

proof fn lemma_scene_head(s: Seq<u8>, v: SceneView)
    requires
        holds_at(s, 0, scene_le(v)),
        scene_fits(v),
    ensures
        s.len() >= 28,
        header_at(s, VERSION) == Some(v.camera),
        u32_at(s, 24) == v.instances.len(),
        instances_at(s, 28, v.instances.len()) == Some(
            (v.instances, 28int + instances_le(v.instances).len()),
        ),
        holds_at(s, 28int + instances_le(v.instances).len(), scene_tail_le(v)),
        scene_le(v).len() == 28 + instances_le(v.instances).len() + scene_tail_le(v).len(),
{
    let n = u32_le(v.instances.len() as u32);
    let c = instances_le(v.instances) + scene_tail_le(v);
    lemma_holds_split(s, 0, header_le(VERSION, v.camera), n + c);
    lemma_header_at(s, VERSION, v.camera);
    lemma_holds_split(s, 24, n, c);
    lemma_u32_holds(s, 24, v.instances.len() as u32);
    lemma_holds_split(s, 28, instances_le(v.instances), scene_tail_le(v));
    lemma_instances_at(s, 28, v.instances);
}

/// Every written space parses back to itself, whatever follows it.
pub proof fn law_scene_round_trip(v: SceneView, tail: Seq<u8>)
    requires
        scene_fits(v),
    ensures
        scene_at(scene_le(v) + tail) == Some((v, scene_le(v).len() as int)),
{
    let s = scene_le(v) + tail;
    lemma_holds_whole(s);
    lemma_holds_split(s, 0, scene_le(v), tail);
    lemma_scene_head(s, v);
    lemma_scene_tail(s, 28int + instances_le(v.instances).len(), v);
}

proof fn lemma_instance_in_prefix(s: Seq<u8>, k: int, p: int)
    requires
        0 <= p,
        0 <= k <= s.len(),
        instance_at(s.subrange(0, k), p) is Some,
    ensures
        instance_at(s, p) == instance_at(s.subrange(0, k), p),
        (instance_at(s, p)->0).1 <= k,
        (instance_at(s, p)->0).1 >= p,
{
    let t = s.subrange(0, k);
    lemma_text_in_prefix(s, k, p);
    let p1 = (text_at(s, p)->0).1;
    lemma_text_in_prefix(s, k, p1);
    let p2 = (text_at(s, p1)->0).1;
    let n = u16_at(t, p2 + 47);
    assert(n == u16_at(s, p2 + 47));
    assert(floats_at(t, p2, 3) =~= floats_at(s, p2, 3));
    assert(floats_at(t, p2 + 12, 3) =~= floats_at(s, p2 + 12, 3));
    assert(floats_at(t, p2 + 24, 3) =~= floats_at(s, p2 + 24, 3));
    assert(t.subrange(p2 + 37, p2 + 40) =~= s.subrange(p2 + 37, p2 + 40));
    assert(t.subrange(p2 + 40, p2 + 43) =~= s.subrange(p2 + 40, p2 + 43));
    assert(material_at(t, p2 + 36) == material_at(s, p2 + 36));
    assert(u32_at(t, p2 + 43) == u32_at(s, p2 + 43));
    assert(points_at(t, p2 + 49, n as nat) =~= points_at(s, p2 + 49, n as nat));
}

/// Instances that a part of a blob gives, the whole blob gives too.
pub proof fn lemma_instances_in_prefix(s: Seq<u8>, k: int, p: int, n: nat)
    requires
        0 <= p <= k <= s.len(),
        instances_at(s.subrange(0, k), p, n) is Some,
    ensures
        instances_at(s, p, n) == instances_at(s.subrange(0, k), p, n),
        p <= (instances_at(s, p, n)->0).1 <= k,
    decreases n,
{
    if n > 0 {
        lemma_instances_in_prefix(s, k, p, (n - 1) as nat);
        lemma_instance_in_prefix(s, k, (instances_at(s, p, (n - 1) as nat)->0).1);
    }
}

proof fn lemma_exits_in_prefix(s: Seq<u8>, k: int, p: int, n: nat)
    requires
        0 <= p <= k <= s.len(),
        exits_at(s.subrange(0, k), p, n) is Some,
    ensures
        exits_at(s, p, n) == exits_at(s.subrange(0, k), p, n),
        p <= (exits_at(s, p, n)->0).1 <= k,
    decreases n,
{
    if n > 0 {
        lemma_exits_in_prefix(s, k, p, (n - 1) as nat);
        let q = (exits_at(s, p, (n - 1) as nat)->0).1;
        lemma_text_in_prefix(s, k, q);
        let q1 = (text_at(s, q)->0).1;
        let t = s.subrange(0, k);
        assert(floats_at(t, q1, 3) =~= floats_at(s, q1, 3));
        assert(u32_at(t, q1 + 12) == u32_at(s, q1 + 12));
    }
}

/// A header that a part of a blob gives, the whole blob gives too.
pub proof fn lemma_header_in_prefix(s: Seq<u8>, k: int, version: u16)
    requires
        0 <= k <= s.len(),
        header_at(s.subrange(0, k), version) is Some,
    ensures
        header_at(s, version) == header_at(s.subrange(0, k), version),
{
    let t = s.subrange(0, k);
    assert(u32_at(t, 0) == u32_at(s, 0));
    assert(u16_at(t, 4) == u16_at(s, 4));
    assert(u16_at(t, 6) == u16_at(s, 6));
    assert(floats_at(t, 8, 4) =~= floats_at(s, 8, 4));
}

/// A blob gives the same space, and the same end, as any part of it that gives one.
proof fn lemma_scene_in_prefix(s: Seq<u8>, k: int)
    requires
        0 <= k <= s.len(),
        scene_at(s.subrange(0, k)) is Some,
    ensures
        scene_at(s) == scene_at(s.subrange(0, k)),
        (scene_at(s)->0).1 <= k,
{
    let t = s.subrange(0, k);
    lemma_header_in_prefix(s, k, VERSION);
    assert(u32_at(t, 24) == u32_at(s, 24));
    lemma_instances_in_prefix(s, k, 28, u32_at(t, 24) as nat);
    let p = (instances_at(s, 28, u32_at(s, 24) as nat)->0).1;
    assert(u32_at(t, p) == u32_at(s, p));
    lemma_exits_in_prefix(s, k, p + 4, u32_at(t, p) as nat);
}

/// A blob that parses to its end no longer parses once it loses any of its last
/// bytes.
pub proof fn law_truncated_blob_is_rejected(s: Seq<u8>, keep: int)
    requires
        ({
            ||| scene_at(s) matches Some((_, end)) && end == s.len()
            ||| zone_at(s) matches Some((_, end)) && end == s.len()
        }),
        0 <= keep < s.len(),
    ensures
        scene_at(s.subrange(0, keep)) is None,
        zone_at(s.subrange(0, keep)) is None,
{
    if scene_at(s.subrange(0, keep)) is Some {
        lemma_scene_in_prefix(s, keep);
    }
    if zone_at(s.subrange(0, keep)) is Some {
        lemma_zone_in_prefix(s, keep);
    }
}

/// A written space that loses any of its last bytes no longer parses.
pub proof fn law_truncated_scene_is_rejected(v: SceneView, keep: int)
    requires
        scene_fits(v),
        0 <= keep < scene_le(v).len(),
    ensures
        scene_at(scene_le(v).subrange(0, keep)) is None,
        zone_at(scene_le(v).subrange(0, keep)) is None,
{
    let s = scene_le(v);
    law_scene_round_trip(v, Seq::empty());
    assert(s + Seq::<u8>::empty() =~= s);
    law_truncated_blob_is_rejected(s, keep);
}

/// A blob with another magic, or a version other than the two known, does not
/// parse.
pub proof fn law_foreign_blob_is_rejected(s: Seq<u8>)
    requires
        u32_at(s, 0) != MAGIC || (u16_at(s, 4) != VERSION && u16_at(s, 4) != ZONE_VERSION),
    ensures
        scene_at(s) is None,
        zone_at(s) is None,
{
}

} // verus!
