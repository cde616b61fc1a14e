//! Meshes, cameras and lights, with floats held by their bits.

use crate::float::{F32Bits, F32_ONE, F32_ZERO};
use crate::gpu::display_list::{is_model, parse_dl_asset};
use crate::bytes::{u32_at, u32s_at};
use crate::scene::wire::floats_at;
use crate::video::DsScreen;
use vstd::prelude::*;

verus! {

/// A point or direction.
pub type Vec3 = [F32Bits; 3];

/// The vector of these components.
pub fn vec3(x: F32Bits, y: F32Bits, z: F32Bits) -> (r: Vec3)
    ensures
        r@ == seq![x, y, z],
{
    let r: Vec3 = [x, y, z];
    assert(r@ =~= seq![x, y, z]);
    r
}

/// A coloured vertex in model space.
#[derive(Clone, Copy, Debug)]
pub struct Vertex {
    pub pos: Vec3,
    /// Surface normal for lit meshes.
    pub normal: Vec3,
    pub color: [u8; 3],
}

impl Vertex {
    /// An unlit vertex.
    pub fn new(pos: Vec3, color: [u8; 3]) -> (r: Self)
        ensures
            r.pos == pos,
            r.color == color,
            r.normal@ == seq![F32Bits(F32_ZERO), F32Bits(F32_ZERO), F32Bits(F32_ZERO)],
    {
        let z = F32Bits::zero();
        Vertex { pos, normal: vec3(z, z, z), color }
    }

    /// A vertex with a surface normal.
    pub fn with_normal(pos: Vec3, normal: Vec3, color: [u8; 3]) -> (r: Self)
        ensures
            r == (Vertex { pos, normal, color }),
    {
        Vertex { pos, normal, color }
    }

    /// A vertex of its raw components.
    pub fn from_raw(pos: [F32Bits; 3], normal: [F32Bits; 3], color: [u8; 3]) -> (r: Self)
        ensures
            r == (Vertex { pos, normal, color }),
    {
        Vertex { pos, normal, color }
    }
}

/// A baked display list with its bounds.
#[derive(Debug)]
pub struct BakedMesh {
    pub words: Vec<u32>,
    /// Smallest and largest corner.
    pub aabb: [Vec3; 2],
}

/// A drawable mesh.
#[derive(Debug)]
pub struct DsMesh {
    pub tris: Vec<[Vertex; 3]>,
    /// Drawn with hardware lighting?
    pub lit: bool,
    /// The display list; `tris` is empty where there is one.
    pub baked: Option<BakedMesh>,
}

/// Is the corner on the negative side, per axis?
pub type Signs = (bool, bool, bool);

/// The corners of face `f` of a cube: front, back, right, left, top, bottom.
pub open spec fn face_signs(f: int) -> Seq<Signs> {
    if f == 0 {
        seq![(true, true, false), (false, true, false), (false, false, false), (true, false, false)]
    } else if f == 1 {
        seq![(false, true, true), (true, true, true), (true, false, true), (false, false, true)]
    } else if f == 2 {
        seq![(false, true, false), (false, true, true), (false, false, true), (false, false, false)]
    } else if f == 3 {
        seq![(true, true, true), (true, true, false), (true, false, false), (true, false, true)]
    } else if f == 4 {
        seq![(true, false, false), (false, false, false), (false, false, true), (true, false, true)]
    } else {
        seq![(true, true, true), (false, true, true), (false, true, false), (true, true, false)]
    }
}

/// The colour of face `f`.
pub open spec fn face_color(f: int) -> Seq<u8> {
    if f == 0 {
        seq![220u8, 40, 40]
    } else if f == 1 {
        seq![40u8, 200, 40]
    } else if f == 2 {
        seq![60u8, 90, 230]
    } else if f == 3 {
        seq![230u8, 210, 40]
    } else if f == 4 {
        seq![40u8, 210, 210]
    } else {
        seq![210u8, 60, 210]
    }
}

/// One coordinate of a corner.
pub open spec fn side(h: F32Bits, negative: bool) -> F32Bits {
    if negative {
        h.negated()
    } else {
        h
    }
}

/// A corner of a cube.
pub open spec fn cube_corner(h: F32Bits, s: Signs) -> Seq<F32Bits> {
    seq![side(h, s.0), side(h, s.1), side(h, s.2)]
}

/// Which corner of its face stands at `j` in the first or second triangle.
pub open spec fn tri_corner(second: bool, j: int) -> int {
    if !second || j == 0 {
        j
    } else {
        j + 1
    }
}

/// Vertex `v` is corner `j` of triangle `k` of a cube.
pub open spec fn is_cube_vertex(h: F32Bits, k: int, j: int, v: Vertex) -> bool {
    let f = k / 2;
    &&& v.pos@ == cube_corner(h, face_signs(f)[tri_corner(k % 2 == 1, j)])
    &&& v.normal@ == seq![F32Bits(F32_ZERO), F32Bits(F32_ZERO), F32Bits(F32_ZERO)]
    &&& v.color@ == face_color(f)
}

/// Triangle `k` of a cube.
pub open spec fn is_cube_tri(h: F32Bits, k: int, t: [Vertex; 3]) -> bool {
    is_cube_vertex(h, k, 0, t@[0]) && is_cube_vertex(h, k, 1, t@[1]) && is_cube_vertex(
        h,
        k,
        2,
        t@[2],
    )
}

/// A corner of a cube, given the coordinates on either side.
fn corner(h: F32Bits, n: F32Bits, s: Signs) -> (r: Vec3)
    requires
        n == h.negated(),
    ensures
        r@ == cube_corner(h, s),
{
    vec3(
        if s.0 {
            n
        } else {
            h
        },
        if s.1 {
            n
        } else {
            h
        },
        if s.2 {
            n
        } else {
            h
        },
    )
}

/// Append the two triangles of a face.
fn push_face(
    tris: &mut Vec<[Vertex; 3]>,
    h: F32Bits,
    a: Signs,
    b: Signs,
    c: Signs,
    d: Signs,
    color: [u8; 3],
    Ghost(f): Ghost<int>,
)
    requires
        0 <= f < 6,
        old(tris)@.len() == 2 * f,
        face_signs(f) == seq![a, b, c, d],
        face_color(f) == color@,
        forall|k: int| 0 <= k < 2 * f ==> is_cube_tri(h, k, #[trigger] old(tris)@[k]),
    ensures
        final(tris)@.len() == 2 * f + 2,
        forall|k: int| 0 <= k < 2 * f + 2 ==> is_cube_tri(h, k, #[trigger] final(tris)@[k]),
{
    let n: F32Bits = h.negate();
    let va: Vertex = Vertex::new(corner(h, n, a), color);
    let vb: Vertex = Vertex::new(corner(h, n, b), color);
    let vc: Vertex = Vertex::new(corner(h, n, c), color);
    let vd: Vertex = Vertex::new(corner(h, n, d), color);
    let first: [Vertex; 3] = [va, vb, vc];
    let second: [Vertex; 3] = [va, vc, vd];
    proof {
        assert((2 * f) / 2 == f && (2 * f) % 2 == 0);
        assert((2 * f + 1) / 2 == f && (2 * f + 1) % 2 == 1);
        assert(is_cube_tri(h, 2 * f, first));
        assert(is_cube_tri(h, 2 * f + 1, second));
    }
    tris.push(first);
    tris.push(second);
}

impl DsMesh {
    /// A mesh of given triangles.
    pub fn from_static(tris: Vec<[Vertex; 3]>, lit: bool) -> (r: Self)
        ensures
            r.tris@ == tris@,
            r.lit == lit,
            r.baked is None,
    {
        DsMesh { tris, lit, baked: None }
    }

    /// A lit mesh of a display list in read-only memory and its bounds.
    pub fn from_baked(words: &'static [u32], aabb_min: Vec3, aabb_max: Vec3) -> (r: Self)
        ensures
            r.tris@.len() == 0,
            r.lit,
            r.baked matches Some(b) && b.words@ == words@ && b.aabb@[0]@ == aabb_min@ && b.aabb@[1]@
                == aabb_max@,
    {
        let mut copy: Vec<u32> = Vec::new();
        let mut i: usize = 0;
        while i < words.len()
            invariant
                i <= words.len(),
                copy@ == words@.take(i as int),
            decreases words.len() - i,
        {
            copy.push(words[i]);
            assert(copy@ =~= words@.take(i + 1));
            i = i + 1;
        }
        assert(copy@ =~= words@);
        DsMesh::from_owned(copy, aabb_min, aabb_max)
    }

    /// A lit mesh of a display list that was loaded, and its bounds.
    pub fn from_owned(words: Vec<u32>, aabb_min: Vec3, aabb_max: Vec3) -> (r: Self)
        ensures
            r.tris@.len() == 0,
            r.lit,
            r.baked matches Some(b) && b.words@ == words@ && b.aabb@[0]@ == aabb_min@ && b.aabb@[1]@
                == aabb_max@,
    {
        DsMesh {
            tris: Vec::new(),
            lit: true,
            baked: Some(BakedMesh { words, aabb: [aabb_min, aabb_max] }),
        }
    }

    /// The mesh in a model asset; `None` where it is malformed.
    pub fn from_asset(bytes: &[u8]) -> (r: Option<Self>)
        ensures
            r is Some <==> is_model(bytes@),
            r matches Some(m) ==> {
                &&& m.tris@.len() == 0
                &&& m.lit
                &&& m.baked matches Some(b)
                &&& b.words@ == u32s_at(bytes@, 32, u32_at(bytes@, 28) as nat)
                &&& b.aabb@[0]@ == floats_at(bytes@, 4, 3)
                &&& b.aabb@[1]@ == floats_at(bytes@, 16, 3)
            },
    {
        match parse_dl_asset(bytes) {
            Some((words, min, max)) => Some(DsMesh::from_owned(words, min, max)),
            None => None,
        }
    }

    /// A cube from `-half` to `half` on every axis, unlit, each face in its own
    /// colour.
    pub fn cube(half: F32Bits) -> (r: Self)
        ensures
            r.tris@.len() == 12,
            forall|k: int| 0 <= k < 12 ==> is_cube_tri(half, k, #[trigger] r.tris@[k]),
            !r.lit,
            r.baked is None,
    {
        let mut tris: Vec<[Vertex; 3]> = Vec::new();
        let h: F32Bits = half;
        let red: [u8; 3] = [220, 40, 40];
        let green: [u8; 3] = [40, 200, 40];
        let blue: [u8; 3] = [60, 90, 230];
        let yellow: [u8; 3] = [230, 210, 40];
        let cyan: [u8; 3] = [40, 210, 210];
        let magenta: [u8; 3] = [210, 60, 210];
        assert(red@ =~= face_color(0));
        assert(green@ =~= face_color(1));
        assert(blue@ =~= face_color(2));
        assert(yellow@ =~= face_color(3));
        assert(cyan@ =~= face_color(4));
        assert(magenta@ =~= face_color(5));
        push_face(
            &mut tris,
            h,
            (true, true, false),
            (false, true, false),
            (false, false, false),
            (true, false, false),
            red,
            Ghost(0),
        );
        push_face(
            &mut tris,
            h,
            (false, true, true),
            (true, true, true),
            (true, false, true),
            (false, false, true),
            green,
            Ghost(1),
        );
        push_face(
            &mut tris,
            h,
            (false, true, false),
            (false, true, true),
            (false, false, true),
            (false, false, false),
            blue,
            Ghost(2),
        );
        push_face(
            &mut tris,
            h,
            (true, true, true),
            (true, true, false),
            (true, false, false),
            (true, false, true),
            yellow,
            Ghost(3),
        );
        push_face(
            &mut tris,
            h,
            (true, false, false),
            (false, false, false),
            (false, false, true),
            (true, false, true),
            cyan,
            Ghost(4),
        );
        push_face(
            &mut tris,
            h,
            (true, true, true),
            (false, true, true),
            (false, true, false),
            (true, true, false),
            magenta,
            Ghost(5),
        );
        DsMesh { tris, lit: false, baked: None }
    }
}

/// A side as a number.
pub open spec fn sign(negative: bool) -> int {
    if negative {
        -1
    } else {
        1
    }
}

/// The axis that face `f` looks along: `0` for x, `1` for y, `2` for z, and whether it
/// looks to the negative side.
pub open spec fn face_axis(f: int) -> (int, bool) {
    if f == 0 {
        (2, false)
    } else if f == 1 {
        (2, true)
    } else if f == 2 {
        (0, false)
    } else if f == 3 {
        (0, true)
    } else if f == 4 {
        (1, false)
    } else {
        (1, true)
    }
}

/// Component `axis` of the cross product of the edges from `a` to `b` and to `c`.
pub open spec fn turn(a: Signs, b: Signs, c: Signs, axis: int) -> int {
    let (bx, by, bz) = (sign(b.0) - sign(a.0), sign(b.1) - sign(a.1), sign(b.2) - sign(a.2));
    let (cx, cy, cz) = (sign(c.0) - sign(a.0), sign(c.1) - sign(a.1), sign(c.2) - sign(a.2));
    if axis == 0 {
        by * cz - bz * cy
    } else if axis == 1 {
        bz * cx - bx * cz
    } else {
        bx * cy - by * cx
    }
}

/// Both triangles of every face of a cube turn so that the face looks outward.
pub proof fn law_cube_faces_look_outward(f: int, second: bool)
    requires
        0 <= f < 6,
    ensures
        ({
            let s = face_signs(f);
            let (axis, negative) = face_axis(f);
            let t = turn(
                s[tri_corner(second, 0)],
                s[tri_corner(second, 1)],
                s[tri_corner(second, 2)],
                axis,
            );
            t == if negative {
                -4int
            } else {
                4int
            }
        }),
{
    let s = face_signs(f);
    let a = s[tri_corner(second, 0)];
    let b = s[tri_corner(second, 1)];
    let c = s[tri_corner(second, 2)];
    let (bx, by, bz) = (sign(b.0) - sign(a.0), sign(b.1) - sign(a.1), sign(b.2) - sign(a.2));
    let (cx, cy, cz) = (sign(c.0) - sign(a.0), sign(c.1) - sign(a.1), sign(c.2) - sign(a.2));
    lemma_edge_product(by, cz);
    lemma_edge_product(bz, cy);
    lemma_edge_product(bz, cx);
    lemma_edge_product(bx, cz);
    lemma_edge_product(bx, cy);
    lemma_edge_product(by, cx);
}

/// The products of edge lengths between corners.
proof fn lemma_edge_product(x: int, y: int)
    by (nonlinear_arith)
    requires
        x == 0 || x == 2 || x == -2,
        y == 0 || y == 2 || y == -2,
    ensures
        x == 0 || y == 0 ==> x * y == 0,
        x != 0 && x == y ==> x * y == 4,
        x != 0 && x == -y ==> x * y == -4,
{
}

/// Placement of an object: position, Euler angles and scale.
#[derive(Clone, Copy, Debug)]
pub struct Transform3d {
    pub translation: Vec3,
    pub rotation: Vec3,
    pub scale: Vec3,
}

/// Three times the same value.
pub open spec fn splat(v: u32) -> Seq<F32Bits> {
    seq![F32Bits(v), F32Bits(v), F32Bits(v)]
}

impl Default for Transform3d {
    fn default() -> (r: Self)
        ensures
            r.translation@ == splat(F32_ZERO),
            r.rotation@ == splat(F32_ZERO),
            r.scale@ == splat(F32_ONE),
    {
        let z = F32Bits::zero();
        Transform3d::from_translation(vec3(z, z, z))
    }
}

impl Transform3d {
    /// A placement without rotation and scale.
    pub fn from_translation(translation: Vec3) -> (r: Self)
        ensures
            r.translation == translation,
            r.rotation@ == splat(F32_ZERO),
            r.scale@ == splat(F32_ONE),
    {
        let z = F32Bits::zero();
        let o = F32Bits::one();
        Transform3d { translation, rotation: vec3(z, z, z), scale: vec3(o, o, o) }
    }

    /// The placement with a uniform scale.
    pub fn with_scale(self, scale: F32Bits) -> (r: Self)
        ensures
            r.translation == self.translation,
            r.rotation == self.rotation,
            r.scale@ == seq![scale, scale, scale],
    {
        Transform3d { scale: vec3(scale, scale, scale), ..self }
    }
}

/// The camera.
#[derive(Clone, Copy, Debug)]
pub struct Camera3d {
    /// Vertical field of view in degrees.
    pub fov_degrees: F32Bits,
    pub near: F32Bits,
    pub far: F32Bits,
    pub position: Vec3,
    /// Rotation about the x axis; negative looks down.
    pub pitch: F32Bits,
    /// Rotation about the y axis.
    pub yaw: F32Bits,
}

impl Default for Camera3d {
    /// 70 degrees, from 0.1 to 40, three units back along z.
    fn default() -> (r: Self)
        ensures
            r.fov_degrees == F32Bits(0x428c_0000),
            r.near == F32Bits(0x3dcc_cccd),
            r.far == F32Bits(0x4220_0000),
            r.position@ == seq![F32Bits(0), F32Bits(0), F32Bits(0x4040_0000)],
            r.pitch == F32Bits(0),
            r.yaw == F32Bits(0),
    {
        let z = F32Bits::zero();
        Camera3d {
            fov_degrees: F32Bits(0x428c_0000),
            near: F32Bits(0x3dcc_cccd),
            far: F32Bits(0x4220_0000),
            position: vec3(z, z, F32Bits(0x4040_0000)),
            pitch: z,
            yaw: z,
        }
    }
}

/// Which screen shows the 3D output.
#[derive(Clone, Copy, Debug, PartialEq, Eq, Structural)]
pub struct Display3d {
    pub screen: DsScreen,
}

impl Default for Display3d {
    fn default() -> (r: Self)
        ensures
            r.screen == DsScreen::Top,
    {
        Display3d { screen: DsScreen::Top }
    }
}

/// Distance from the camera up to which bounded meshes are drawn.
#[derive(Clone, Copy, Debug, PartialEq, Eq, Structural)]
pub struct RenderRange(pub F32Bits);

impl Default for RenderRange {
    /// Twelve units.
    fn default() -> (r: Self)
        ensures
            r.0 == F32Bits(0x4140_0000),
    {
        RenderRange(F32Bits(0x4140_0000))
    }
}

/// A directional light.
#[derive(Clone, Copy, Debug)]
pub struct DirectionalLight {
    /// The direction that the light travels.
    pub direction: Vec3,
    pub color: [u8; 3],
}

/// The scene's lights.
#[derive(Clone, Copy, Debug)]
pub struct DsLights {
    pub lights: [Option<DirectionalLight>; 4],
}

impl Default for DsLights {
    /// One white light from the upper front: direction -0.4, -0.5, -0.77.
    fn default() -> (r: Self)
        ensures
            r.lights@[0] matches Some(l) && l.direction@ == seq![
                F32Bits(0xbecc_cccd),
                F32Bits(0xbf00_0000),
                F32Bits(0xbf45_1eb8),
            ] && l.color@ == seq![255u8, 255, 255],
            r.lights@[1] is None,
            r.lights@[2] is None,
            r.lights@[3] is None,
    {
        let color: [u8; 3] = [255, 255, 255];
        assert(color@ =~= seq![255u8, 255, 255]);
        let key = DirectionalLight {
            direction: vec3(F32Bits(0xbecc_cccd), F32Bits(0xbf00_0000), F32Bits(0xbf45_1eb8)),
            color,
        };
        DsLights { lights: [Some(key), None, None, None] }
    }
}

/// Reflective material of a lit mesh.
#[derive(Clone, Copy, Debug, PartialEq, Eq)]
pub struct DsMaterial {
    pub diffuse: [u8; 3],
    pub ambient: [u8; 3],
}

impl Default for DsMaterial {
    fn default() -> (r: Self)
        ensures
            r.diffuse@ == seq![200u8, 200, 210],
            r.ambient@ == seq![40u8, 40, 55],
    {
        let r = DsMaterial { diffuse: [200, 200, 210], ambient: [40, 40, 55] };
        assert(r.diffuse@ =~= seq![200u8, 200, 210]);
        assert(r.ambient@ =~= seq![40u8, 40, 55]);
        r
    }
}

} // verus!
