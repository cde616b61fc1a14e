//! Where scenes and meshes live in the read-only filesystem, and what a loaded
//! scene asks to be spawned.

use crate::float::F32Bits;
use crate::scene::asset::{SceneData, SceneInstanceData};
use crate::scene::wire::points_of;
use crate::strings::push_text;
use vstd::prelude::*;
use vstd::utf8::encode_utf8;

verus! {

/// The bytes of a text with a terminating zero.
pub open spec fn nul_terminated(t: Seq<char>) -> Seq<u8> {
    encode_utf8(t).push(0)
}

/// The bytes of `t` with a terminating zero.
pub fn to_nul_terminated(t: &str) -> (r: Vec<u8>)
    ensures
        r@ == nul_terminated(t@),
{
    let mut out: Vec<u8> = Vec::new();
    crate::bytes::push_bytes(&mut out, t.as_bytes());
    out.push(0);
    assert(out@ =~= nul_terminated(t@));
    out
}

/// The path of a zone's scene within a level.
pub open spec fn level_space_text(level: Seq<char>, zone: Seq<char>) -> Seq<char> {
    "nitro:/levels/"@ + level + "/"@ + zone + ".scene"@
}

/// The path of a zone's scene within a level, with a terminating zero.
pub fn level_space_path(level: &str, zone: &str) -> (r: Vec<u8>)
    ensures
        r@ == nul_terminated(level_space_text(level@, zone@)),
{
    let mut t: String = String::new();
    push_text(&mut t, "nitro:/levels/");
    push_text(&mut t, level);
    push_text(&mut t, "/");
    push_text(&mut t, zone);
    push_text(&mut t, ".scene");
    assert(t@ =~= level_space_text(level@, zone@));
    to_nul_terminated(t.as_str())
}

/// The path of a mesh by its bare name.
pub open spec fn mesh_text(name: Seq<char>) -> Seq<char> {
    "nitro:/"@ + name + ".dl"@
}

/// The path of a mesh by its bare name, with a terminating zero.
pub fn mesh_path(name: &str) -> (r: Vec<u8>)
    ensures
        r@ == nul_terminated(mesh_text(name@)),
{
    let mut t: String = String::new();
    push_text(&mut t, "nitro:/");
    push_text(&mut t, name);
    push_text(&mut t, ".dl");
    assert(t@ =~= mesh_text(name@));
    to_nul_terminated(t.as_str())
}

/// A request to load a zone.
pub struct LoadSpace {
    /// Path of the scene, with a terminating zero.
    pub path: Vec<u8>,
}

impl LoadSpace {
    /// Request a neighbour zone by its name within a level.
    pub fn by_name(level: &str, zone: &str) -> (r: Self)
        ensures
            r.path@ == nul_terminated(level_space_text(level@, zone@)),
    {
        LoadSpace { path: level_space_path(level, zone) }
    }
}

/// What is spawned for one instance of a scene.
pub struct SpawnPlan {
    pub translation: [F32Bits; 3],
    pub rotation: [F32Bits; 3],
    pub scale: [F32Bits; 3],
    pub role: String,
    pub flags: u32,
    /// Where the mesh is read from; without a mesh the entity is a marker.
    pub mesh: Option<Vec<u8>>,
    /// Diffuse and ambient colour; without them the default material applies.
    pub material: Option<([u8; 3], [u8; 3])>,
    /// The authored waypoints, where there are any.
    pub path: Option<Vec<[F32Bits; 2]>>,
}

/// The plan follows from the instance.
pub open spec fn plan_of(i: SceneInstanceData, p: SpawnPlan) -> bool {
    &&& p.translation@ == i.pos@
    &&& p.rotation@ == i.rot@
    &&& p.scale@ == i.scale@
    &&& p.role@ == i.role@
    &&& p.flags == i.flags
    &&& p.mesh is Some <==> i.mesh is Some
    &&& p.mesh matches Some(m) ==> m@ == nul_terminated(mesh_text(i.mesh->0@))
    &&& p.material == i.material
    &&& p.path is Some <==> i.path@.len() > 0
    &&& p.path matches Some(v) ==> points_of(v@) == points_of(i.path@)
}

/// A copy of a path.
pub fn copy_path(path: &Vec<[F32Bits; 2]>) -> (r: Vec<[F32Bits; 2]>)
    ensures
        points_of(r@) == points_of(path@),
        r.len() == path.len(),
{
    let mut out: Vec<[F32Bits; 2]> = Vec::new();
    let mut i: usize = 0;
    while i < path.len()
        invariant
            i <= path.len(),
            out.len() == i,
            forall|k: int| 0 <= k < i ==> points_of(out@)[k] == points_of(path@)[k],
        decreases path.len() - i,
    {
        let ghost before = out@;
        out.push([path[i][0], path[i][1]]);
        assert forall|k: int| 0 <= k < i + 1 implies points_of(out@)[k] == points_of(path@)[k] by {
            if k < i {
                assert(points_of(before)[k] == points_of(path@)[k]);
            }
        }
        i = i + 1;
    }
    assert(points_of(out@) =~= points_of(path@));
    out
}

/// What each instance of a scene asks for, in order.
pub fn spawn(scene: &SceneData) -> (r: Vec<SpawnPlan>)
    ensures
        r.len() == scene.instances.len(),
        forall|k: int| 0 <= k < r.len() ==> plan_of(scene.instances@[k], #[trigger] r@[k]),
{
    let mut out: Vec<SpawnPlan> = Vec::new();
    let mut i: usize = 0;
    while i < scene.instances.len()
        invariant
            i <= scene.instances.len(),
            out.len() == i,
            forall|k: int| 0 <= k < i ==> plan_of(scene.instances@[k], #[trigger] out@[k]),
        decreases scene.instances.len() - i,
    {
        let inst: &SceneInstanceData = &scene.instances[i];
        let mesh: Option<Vec<u8>> = match &inst.mesh {
            Some(name) => Some(mesh_path(name.as_str())),
            None => None,
        };
        let path: Option<Vec<[F32Bits; 2]>> = if inst.path.len() > 0 {
            Some(copy_path(&inst.path))
        } else {
            None
        };
        out.push(
            SpawnPlan {
                translation: inst.pos,
                rotation: inst.rot,
                scale: inst.scale,
                role: inst.role.clone(),
                flags: inst.flags,
                mesh,
                material: inst.material,
                path,
            },
        );
        i = i + 1;
    }
    out
}

} // verus!
