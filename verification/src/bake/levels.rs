//! The authoring model of levels: zones, placements and prefabs, how they resolve
//! to spaces, and what is checked of them.

use crate::bake::const_tree::{
    const_line, copy_texts, insert_name, insert_sorted, push_const_line, texts,
};
use crate::bake::files::{extension_of, split_file_name, stem_of};
use crate::bake::obj2dl::{join_path, joined_path};
use crate::bake::names::{guard_digit, guard_leading_digit, lower_name, module_name, upper_name};
use crate::bake::scene2bin::{
    bounds_view, conn_views, encode, material_view, name_view, placed_views, scene_camera, zone_view,
    Bounds, Camera, Connection, Instance, Material, Space, ASSET_EXT, MANIFEST_NAME,
    NITROFS_SUBDIR, SIDE_EAST, SIDE_NORTH, SIDE_SOUTH, SIDE_WEST,
};
use crate::float::F32Bits;
use crate::name_map::{lemma_index, NameMap};
use crate::scene::asset::{CameraMode, InstanceView};
use crate::scene::paths::copy_path;
use crate::scene::wire::{points_of, Point};
use crate::scene::zone::{zone_le, ConnView};
use crate::strings::{blank, decimal, is_blank, push_text, same_text, text, to_decimal};
use vstd::prelude::*;

verus! {

/// One zone's entry in a level manifest.
#[derive(Clone, Copy, Debug)]
pub struct ZoneEntry {
    /// Where the zone stands on the map.
    pub place: [F32Bits; 2],
    /// Its walkable rectangle, in its own coordinates.
    pub bounds: Bounds,
    pub camera: Camera,
}

/// A level manifest: which zones there are and how they are laid out.
pub struct Level {
    /// Display name.
    pub name: String,
    /// Zone that the level starts in.
    pub entry: String,
    /// The zones by name.
    pub zones: NameMap<ZoneEntry>,
}

/// A reusable instance template; the placement gives the position.
#[derive(Debug)]
pub struct Prefab {
    pub mesh: Option<String>,
    pub role: String,
    pub rot: [F32Bits; 3],
    pub scale: [F32Bits; 3],
    pub material: Option<Material>,
    pub flags: u32,
    pub path: Vec<[F32Bits; 2]>,
}

/// Prefabs by name.
pub type PrefabLib = NameMap<Prefab>;

/// One entry of a zone's content: a literal instance, or a prefab with a position
/// and overrides.
#[derive(Debug)]
pub enum Placement {
    Lit(Instance),
    Use {
        name: String,
        pos: [F32Bits; 3],
        rot: Option<[F32Bits; 3]>,
        scale: Option<[F32Bits; 3]>,
        material: Option<Material>,
        flags: Option<u32>,
        path: Vec<[F32Bits; 2]>,
    },
}

impl Placement {
    /// The position, in the zone's coordinates.
    pub fn pos(&self) -> (r: [F32Bits; 3])
        ensures
            r == match *self {
                Placement::Lit(i) => i.pos,
                Placement::Use { pos, .. } => pos,
            },
    {
        match self {
            Placement::Lit(i) => i.pos,
            Placement::Use { pos, .. } => *pos,
        }
    }

    /// The position, to be written.
    pub fn pos_mut(&mut self) -> (r: &mut [F32Bits; 3])
        ensures
            match *old(self) {
                Placement::Lit(i) => *r == i.pos && *final(self) == Placement::Lit(
                    Instance { pos: *final(r), ..i },
                ),
                Placement::Use { name, pos, rot, scale, material, flags, path } => *r == pos
                    && *final(self) == (Placement::Use {
                    name,
                    pos: *final(r),
                    rot,
                    scale,
                    material,
                    flags,
                    path,
                }),
            },
    {
        match self {
            Placement::Lit(i) => &mut i.pos,
            Placement::Use { pos, .. } => pos,
        }
    }

    /// The waypoints; for a prefab use these are its overrides.
    pub fn path(&self) -> (r: &Vec<[F32Bits; 2]>)
        ensures
            *r == match *self {
                Placement::Lit(i) => i.path,
                Placement::Use { path, .. } => path,
            },
    {
        match self {
            Placement::Lit(i) => &i.path,
            Placement::Use { path, .. } => path,
        }
    }

    /// The waypoints, to be written.
    pub fn path_mut(&mut self) -> (r: &mut Vec<[F32Bits; 2]>)
        ensures
            match *old(self) {
                Placement::Lit(i) => *r == i.path && *final(self) == Placement::Lit(
                    Instance { path: *final(r), ..i },
                ),
                Placement::Use { name, pos, rot, scale, material, flags, path } => *r == path
                    && *final(self) == (Placement::Use {
                    name,
                    pos,
                    rot,
                    scale,
                    material,
                    flags,
                    path: *final(r),
                }),
            },
    {
        match self {
            Placement::Lit(i) => &mut i.path,
            Placement::Use { path, .. } => path,
        }
    }
}

/// A zone's content.
pub struct Zone {
    pub instances: Vec<Placement>,
}

/// The instance that a prefab use makes: the prefab, with what the use overrides.
pub open spec fn used_prefab(
    pf: Prefab,
    pos: Seq<F32Bits>,
    rot: Option<[F32Bits; 3]>,
    scale: Option<[F32Bits; 3]>,
    material: Option<Material>,
    flags: Option<u32>,
    path: Seq<Point>,
) -> InstanceView {
    InstanceView {
        mesh: name_view(pf.mesh),
        role: pf.role@,
        pos,
        rot: match rot {
            Some(r) => r@,
            None => pf.rot@,
        },
        scale: match scale {
            Some(s) => s@,
            None => pf.scale@,
        },
        material: match material {
            Some(m) => material_view(Some(m)),
            None => material_view(pf.material),
        },
        flags: match flags {
            Some(f) => f,
            None => pf.flags,
        },
        path: if path.len() == 0 {
            points_of(pf.path@)
        } else {
            path
        },
    }
}

/// The instance that a placement makes, or why it makes none.
pub open spec fn resolved(p: Placement, prefabs: PrefabLib) -> Result<InstanceView, Seq<char>> {
    match p {
        Placement::Lit(i) => Ok(i@),
        Placement::Use { name, pos, rot, scale, material, flags, path } => match prefabs.lookup(
            name@,
        ) {
            None => Err("unknown prefab `"@ + name@ + "`"@),
            Some(pf) => Ok(
                used_prefab(pf, pos@, rot, scale, material, flags, points_of(path@)),
            ),
        },
    }
}

/// A copy of a mesh name.
fn copy_name(m: &Option<String>) -> (r: Option<String>)
    ensures
        name_view(r) == name_view(*m),
{
    match m {
        Some(name) => Some(name.clone()),
        None => None,
    }
}

/// A copy of an instance.
fn copy_instance(i: &Instance) -> (r: Instance)
    ensures
        r@ == i@,
{
    Instance {
        mesh: copy_name(&i.mesh),
        role: i.role.clone(),
        pos: i.pos,
        rot: i.rot,
        scale: i.scale,
        material: i.material,
        flags: i.flags,
        path: copy_path(&i.path),
    }
}

/// Expand a placement into a flat instance. A literal passes through; a use starts
/// from the named prefab and applies its position and overrides.
pub fn resolve_placement(p: &Placement, prefabs: &PrefabLib) -> (r: Result<Instance, String>)
    requires
        prefabs.wf(),
    ensures
        r matches Ok(i) ==> resolved(*p, *prefabs) == Ok::<InstanceView, Seq<char>>(i@),
        r matches Err(e) ==> resolved(*p, *prefabs) == Err::<InstanceView, Seq<char>>(e@),
{
    match p {
        Placement::Lit(i) => Ok(copy_instance(i)),
        Placement::Use { name, pos, rot, scale, material, flags, path } => {
            match prefabs.get(name.as_str()) {
                None => {
                    let mut e: String = String::new();
                    push_text(&mut e, "unknown prefab `");
                    push_text(&mut e, name.as_str());
                    push_text(&mut e, "`");
                    assert(e@ =~= "unknown prefab `"@ + name@ + "`"@);
                    Err(e)
                },
                Some(pf) => {
                    let inst = Instance {
                        mesh: copy_name(&pf.mesh),
                        role: pf.role.clone(),
                        pos: *pos,
                        rot: match rot {
                            Some(v) => *v,
                            None => pf.rot,
                        },
                        scale: match scale {
                            Some(v) => *v,
                            None => pf.scale,
                        },
                        material: match material {
                            Some(m) => Some(*m),
                            None => pf.material,
                        },
                        flags: match flags {
                            Some(f) => *f,
                            None => pf.flags,
                        },
                        path: if path.len() == 0 {
                            copy_path(&pf.path)
                        } else {
                            copy_path(path)
                        },
                    };
                    assert(inst@ == used_prefab(
                        *pf,
                        pos@,
                        *rot,
                        *scale,
                        *material,
                        *flags,
                        points_of(path@),
                    ));
                    Ok(inst)
                },
            }
        },
    }
}

/// A resolved zone by its values.
#[verifier::ext_equal]
pub struct SpaceView {
    pub camera: CameraMode,
    pub place: Seq<F32Bits>,
    pub bounds: Seq<F32Bits>,
    pub instances: Seq<InstanceView>,
}

impl View for Space {
    type V = SpaceView;

    open spec fn view(&self) -> SpaceView {
        SpaceView {
            camera: scene_camera(self.camera),
            place: self.place@,
            bounds: bounds_view(self.bounds),
            instances: placed_views(self.instances@),
        }
    }
}

/// The first `n` placements of a zone resolved, or the first error among them.
pub open spec fn resolved_list(
    stem: Seq<char>,
    placements: Seq<Placement>,
    prefabs: PrefabLib,
    n: nat,
) -> Result<Seq<InstanceView>, Seq<char>>
    decreases n,
{
    if n == 0 {
        Ok(Seq::empty())
    } else {
        match resolved_list(stem, placements, prefabs, (n - 1) as nat) {
            Err(e) => Err(e),
            Ok(v) => match resolved(placements[n - 1], prefabs) {
                Ok(x) => Ok(v.push(x)),
                Err(e) => Err("zone `"@ + stem + "` instance "@ + decimal((n - 1) as nat) + ": "@ + e),
            },
        }
    }
}

/// A manifest entry with its content resolved, or why it has none.
pub open spec fn zone_space(
    stem: Seq<char>,
    entry: ZoneEntry,
    zones: NameMap<Zone>,
    prefabs: PrefabLib,
) -> Result<SpaceView, Seq<char>> {
    match zones.lookup(stem) {
        None => Err(
            "zone `"@ + stem + "` in the manifest has no `"@ + stem + ".ron` content file"@,
        ),
        Some(zone) => match resolved_list(stem, zone.instances@, prefabs, zone.instances@.len()) {
            Err(e) => Err(e),
            Ok(instances) => Ok(
                SpaceView {
                    camera: scene_camera(entry.camera),
                    place: entry.place@,
                    bounds: bounds_view(entry.bounds),
                    instances,
                },
            ),
        },
    }
}

/// The first `n` zones of a manifest with their contents, or the first error.
pub open spec fn assembled_list(
    level: Level,
    zones: NameMap<Zone>,
    prefabs: PrefabLib,
    n: nat,
) -> Result<Seq<(Seq<char>, SpaceView)>, Seq<char>>
    decreases n,
{
    if n == 0 {
        Ok(Seq::empty())
    } else {
        match assembled_list(level, zones, prefabs, (n - 1) as nat) {
            Err(e) => Err(e),
            Ok(v) => {
                let (stem, entry) = level.zones.entries@[n - 1];
                match zone_space(stem@, entry, zones, prefabs) {
                    Err(e) => Err(e),
                    Ok(x) => Ok(v.push((stem@, x))),
                }
            },
        }
    }
}

/// A level's zones with their contents, or why it cannot be assembled.
pub open spec fn assembled(level: Level, zones: NameMap<Zone>, prefabs: PrefabLib) -> Result<
    Seq<(Seq<char>, SpaceView)>,
    Seq<char>,
> {
    if !level.zones.names().contains(level.entry@) {
        Err("manifest `entry` is `"@ + level.entry@ + "`, which is not one of the zones"@)
    } else {
        assembled_list(level, zones, prefabs, level.zones.entries@.len())
    }
}

/// Named spaces by their values.
pub open spec fn space_views(v: Seq<(String, Space)>) -> Seq<(Seq<char>, SpaceView)> {
    Seq::new(v.len(), |i: int| (v[i].0@, v[i].1@))
}

proof fn lemma_resolved_err(
    stem: Seq<char>,
    placements: Seq<Placement>,
    prefabs: PrefabLib,
    k: nat,
    n: nat,
)
    requires
        k <= n,
        resolved_list(stem, placements, prefabs, k) is Err,
    ensures
        resolved_list(stem, placements, prefabs, n) == resolved_list(stem, placements, prefabs, k),
    decreases n,
{
    if k < n {
        lemma_resolved_err(stem, placements, prefabs, k, (n - 1) as nat);
    }
}

proof fn lemma_assembled_err(
    level: Level,
    zones: NameMap<Zone>,
    prefabs: PrefabLib,
    k: nat,
    n: nat,
)
    requires
        k <= n,
        assembled_list(level, zones, prefabs, k) is Err,
    ensures
        assembled_list(level, zones, prefabs, n) == assembled_list(level, zones, prefabs, k),
    decreases n,
{
    if k < n {
        lemma_assembled_err(level, zones, prefabs, k, (n - 1) as nat);
    }
}

/// Resolve all placements of a zone.
fn resolve_all(stem: &str, placements: &Vec<Placement>, prefabs: &PrefabLib) -> (r: Result<
    Vec<Instance>,
    String,
>)
    requires
        prefabs.wf(),
    ensures
        r matches Ok(v) ==> resolved_list(stem@, placements@, *prefabs, placements@.len())
            == Ok::<Seq<InstanceView>, Seq<char>>(placed_views(v@)),
        r matches Err(e) ==> resolved_list(stem@, placements@, *prefabs, placements@.len())
            == Err::<Seq<InstanceView>, Seq<char>>(e@),
{
    let mut out: Vec<Instance> = Vec::new();
    let mut i: usize = 0;
    assert(placed_views(out@) =~= Seq::<InstanceView>::empty());
    while i < placements.len()
        invariant
            i <= placements.len(),
            prefabs.wf(),
            resolved_list(stem@, placements@, *prefabs, i as nat) == Ok::<
                Seq<InstanceView>,
                Seq<char>,
            >(placed_views(out@)),
        decreases placements.len() - i,
    {
        let ghost before = out@;
        match resolve_placement(&placements[i], prefabs) {
            Ok(x) => {
                let ghost v = x@;
                out.push(x);
                assert(placed_views(out@) =~= placed_views(before).push(v));
            },
            Err(why) => {
                let mut e: String = String::new();
                push_text(&mut e, "zone `");
                push_text(&mut e, stem);
                push_text(&mut e, "` instance ");
                push_text(&mut e, to_decimal(i as u64).as_str());
                push_text(&mut e, ": ");
                push_text(&mut e, why.as_str());
                proof {
                    assert(e@ =~= "zone `"@ + stem@ + "` instance "@ + decimal(i as nat) + ": "@
                        + why@);
                    assert(resolved_list(stem@, placements@, *prefabs, (i + 1) as nat) == Err::<
                        Seq<InstanceView>,
                        Seq<char>,
                    >(e@));
                    lemma_resolved_err(
                        stem@,
                        placements@,
                        *prefabs,
                        (i + 1) as nat,
                        placements@.len(),
                    );
                }
                return Err(e);
            },
        }
        i = i + 1;
    }
    Ok(out)
}

/// Pair each manifest entry with the content of its zone, in the order of the names.
pub fn assemble(level: &Level, zones: &NameMap<Zone>, prefabs: &PrefabLib) -> (r: Result<
    Vec<(String, Space)>,
    String,
>)
    requires
        level.zones.wf(),
        zones.wf(),
        prefabs.wf(),
    ensures
        r matches Ok(v) ==> assembled(*level, *zones, *prefabs) == Ok::<
            Seq<(Seq<char>, SpaceView)>,
            Seq<char>,
        >(space_views(v@)),
        r matches Err(e) ==> assembled(*level, *zones, *prefabs) == Err::<
            Seq<(Seq<char>, SpaceView)>,
            Seq<char>,
        >(e@),
{
    if !level.zones.contains(level.entry.as_str()) {
        let mut e: String = String::new();
        push_text(&mut e, "manifest `entry` is `");
        push_text(&mut e, level.entry.as_str());
        push_text(&mut e, "`, which is not one of the zones");
        assert(e@ =~= "manifest `entry` is `"@ + level.entry@
            + "`, which is not one of the zones"@);
        return Err(e);
    }
    let mut out: Vec<(String, Space)> = Vec::new();
    let mut i: usize = 0;
    assert(space_views(out@) =~= Seq::<(Seq<char>, SpaceView)>::empty());
    while i < level.zones.entries.len()
        invariant
            i <= level.zones.entries.len(),
            zones.wf(),
            prefabs.wf(),
            level.zones.names().contains(level.entry@),
            assembled_list(*level, *zones, *prefabs, i as nat) == Ok::<
                Seq<(Seq<char>, SpaceView)>,
                Seq<char>,
            >(space_views(out@)),
        decreases level.zones.entries.len() - i,
    {
        let ghost before = out@;
        let ghost total = level.zones.entries@.len();
        let entry: ZoneEntry = level.zones.entries[i].1;
        let stem: &String = &level.zones.entries[i].0;
        let zone: &Zone = match zones.get(stem.as_str()) {
            Some(z) => z,
            None => {
                let mut e: String = String::new();
                push_text(&mut e, "zone `");
                push_text(&mut e, stem.as_str());
                push_text(&mut e, "` in the manifest has no `");
                push_text(&mut e, stem.as_str());
                push_text(&mut e, ".ron` content file");
                proof {
                    assert(e@ =~= "zone `"@ + stem@ + "` in the manifest has no `"@ + stem@
                        + ".ron` content file"@);
                    lemma_assembled_err(*level, *zones, *prefabs, (i + 1) as nat, total);
                }
                return Err(e);
            },
        };
        match resolve_all(stem.as_str(), &zone.instances, prefabs) {
            Ok(instances) => {
                let space = Space {
                    camera: entry.camera,
                    place: entry.place,
                    bounds: entry.bounds,
                    instances,
                };
                let ghost v = space@;
                out.push((stem.clone(), space));
                assert(zone_space(stem@, entry, *zones, *prefabs) == Ok::<SpaceView, Seq<char>>(v));
                assert(space_views(out@) =~= space_views(before).push((stem@, v)));
            },
            Err(e) => {
                proof {
                    lemma_assembled_err(*level, *zones, *prefabs, (i + 1) as nat, total);
                }
                return Err(e);
            },
        }
        i = i + 1;
    }
    Ok(out)
}

/// What is wrong with a zone.
#[derive(Debug)]
pub enum ZoneError {
    /// An instance's role is blank.
    EmptyRole { index: usize },
    /// An instance's mesh has no source.
    MissingMesh { index: usize, role: String, mesh: String },
    /// The walkable rectangle is empty.
    EmptyBounds,
}

/// What is wrong with a zone, by its values.
pub enum ZoneErrorView {
    EmptyRole { index: int },
    MissingMesh { index: int, role: Seq<char>, mesh: Seq<char> },
    EmptyBounds,
}

impl View for ZoneError {
    type V = ZoneErrorView;

    open spec fn view(&self) -> ZoneErrorView {
        match *self {
            ZoneError::EmptyRole { index } => ZoneErrorView::EmptyRole { index: index as int },
            ZoneError::MissingMesh { index, role, mesh } => ZoneErrorView::MissingMesh {
                index: index as int,
                role: role@,
                mesh: mesh@,
            },
            ZoneError::EmptyBounds => ZoneErrorView::EmptyBounds,
        }
    }
}

/// The text of a zone error; `min` and `max` are the printed corners of the
/// rectangle.
pub open spec fn zone_error_text(e: ZoneErrorView, min: Seq<char>, max: Seq<char>) -> Seq<char> {
    match e {
        ZoneErrorView::EmptyRole { index } => "instance "@ + decimal(index as nat)
            + ": empty `role`"@,
        ZoneErrorView::MissingMesh { index, role, mesh } => "instance "@ + decimal(index as nat)
            + " (role `"@ + role + "`): mesh `"@ + mesh + "` has no source `"@ + mesh + ".obj`"@,
        ZoneErrorView::EmptyBounds => "bounds min "@ + min + " must be strictly less than max "@
            + max + " on both axes"@,
    }
}

impl ZoneError {
    /// The error as text; `min` and `max` are the printed corners of the rectangle.
    pub fn message(&self, min: &str, max: &str) -> (r: String)
        ensures
            r@ == zone_error_text(self@, min@, max@),
    {
        let mut t: String = String::new();
        match self {
            ZoneError::EmptyRole { index } => {
                push_text(&mut t, "instance ");
                push_text(&mut t, to_decimal(*index as u64).as_str());
                push_text(&mut t, ": empty `role`");
            },
            ZoneError::MissingMesh { index, role, mesh } => {
                push_text(&mut t, "instance ");
                push_text(&mut t, to_decimal(*index as u64).as_str());
                push_text(&mut t, " (role `");
                push_text(&mut t, role.as_str());
                push_text(&mut t, "`): mesh `");
                push_text(&mut t, mesh.as_str());
                push_text(&mut t, "` has no source `");
                push_text(&mut t, mesh.as_str());
                push_text(&mut t, ".obj`");
            },
            ZoneError::EmptyBounds => {
                push_text(&mut t, "bounds min ");
                push_text(&mut t, min);
                push_text(&mut t, " must be strictly less than max ");
                push_text(&mut t, max);
                push_text(&mut t, " on both axes");
            },
        }
        assert(t@ =~= zone_error_text(self@, min@, max@));
        t
    }
}

/// The first thing wrong with instance `i`, where `present` says which meshes have
/// a source.
pub open spec fn instance_error(
    v: InstanceView,
    i: int,
    present: spec_fn(Seq<char>) -> bool,
) -> Option<ZoneErrorView> {
    if is_blank(v.role) {
        Some(ZoneErrorView::EmptyRole { index: i })
    } else {
        match v.mesh {
            Some(mesh) => if !present(mesh) {
                Some(ZoneErrorView::MissingMesh { index: i, role: v.role, mesh })
            } else {
                None
            },
            None => None,
        }
    }
}

/// The first error among the first `n` instances.
pub open spec fn instances_error(
    v: Seq<InstanceView>,
    n: nat,
    present: spec_fn(Seq<char>) -> bool,
) -> Option<ZoneErrorView>
    decreases n,
{
    if n == 0 {
        None
    } else {
        match instances_error(v, (n - 1) as nat, present) {
            Some(e) => Some(e),
            None => instance_error(v[n - 1], n - 1, present),
        }
    }
}

/// Is the rectangle empty on an axis? A side that is no number is not.
pub open spec fn bounds_empty(b: Bounds) -> bool {
    b.min@[0].at_least(b.max@[0]) || b.min@[1].at_least(b.max@[1])
}

/// What is wrong with a zone: its first bad instance, else its rectangle.
pub open spec fn zone_error(space: Space, present: spec_fn(Seq<char>) -> bool) -> Option<
    ZoneErrorView,
> {
    match instances_error(placed_views(space.instances@), space.instances@.len(), present) {
        Some(e) => Some(e),
        None => if bounds_empty(space.bounds) {
            Some(ZoneErrorView::EmptyBounds)
        } else {
            None
        },
    }
}

/// `f` answers as `present` says.
pub open spec fn answers<F: Fn(&str) -> bool>(f: F, present: spec_fn(Seq<char>) -> bool) -> bool {
    forall|s: &str, b: bool| #[trigger] call_ensures(f, (s,), b) ==> b == present(s@)
}

/// A zone error that a check found, if any.
pub open spec fn found(r: Result<(), ZoneError>) -> Option<ZoneErrorView> {
    match r {
        Ok(_) => None,
        Err(e) => Some(e@),
    }
}

proof fn lemma_first_error(
    v: Seq<InstanceView>,
    k: nat,
    n: nat,
    present: spec_fn(Seq<char>) -> bool,
)
    requires
        k <= n,
        instances_error(v, k, present) is Some,
    ensures
        instances_error(v, n, present) == instances_error(v, k, present),
    decreases n,
{
    if k < n {
        lemma_first_error(v, k, (n - 1) as nat, present);
    }
}

/// Check a zone for what would break at run time; `mesh_exists` says whether a mesh
/// has a source.
pub fn validate<F: Fn(&str) -> bool>(space: &Space, mesh_exists: F) -> (r: Result<(), ZoneError>)
    requires
        forall|s: &str| #[trigger] call_requires(mesh_exists, (s,)),
    ensures
        forall|present: spec_fn(Seq<char>) -> bool| #[trigger]
            answers(mesh_exists, present) ==> found(r) == zone_error(*space, present),
{
    let ghost views = placed_views(space.instances@);
    let mut i: usize = 0;
    while i < space.instances.len()
        invariant
            i <= space.instances.len(),
            views == placed_views(space.instances@),
            forall|s: &str| #[trigger] call_requires(mesh_exists, (s,)),
            forall|present: spec_fn(Seq<char>) -> bool| #[trigger]
                answers(mesh_exists, present) ==> instances_error(views, i as nat, present) is None,
        decreases space.instances.len() - i,
    {
        let inst: &Instance = &space.instances[i];
        assert(views[i as int] == inst@);
        if blank(inst.role.as_str()) {
            let e = ZoneError::EmptyRole { index: i };
            assert forall|present: spec_fn(Seq<char>) -> bool| #[trigger]
                answers(mesh_exists, present) implies Some(e@) == zone_error(*space, present) by {
                assert(instances_error(views, (i + 1) as nat, present) == Some(e@));
                lemma_first_error(views, (i + 1) as nat, views.len(), present);
            }
            return Err(e);
        }
        if let Some(mesh) = &inst.mesh {
            let known: bool = mesh_exists(mesh.as_str());
            if !known {
                let e = ZoneError::MissingMesh {
                    index: i,
                    role: inst.role.clone(),
                    mesh: mesh.clone(),
                };
                assert forall|present: spec_fn(Seq<char>) -> bool| #[trigger]
                    answers(mesh_exists, present) implies Some(e@) == zone_error(
                    *space,
                    present,
                ) by {
                    assert(instances_error(views, (i + 1) as nat, present) == Some(e@));
                    lemma_first_error(views, (i + 1) as nat, views.len(), present);
                }
                return Err(e);
            }
        }
        assert forall|present: spec_fn(Seq<char>) -> bool| #[trigger]
            answers(mesh_exists, present) implies instances_error(
            views,
            (i + 1) as nat,
            present,
        ) is None by {
            assert(instances_error(views, i as nat, present) is None);
        }
        i = i + 1;
    }
    let b: &Bounds = &space.bounds;
    if b.min[0].ge(b.max[0]) || b.min[1].ge(b.max[1]) {
        return Err(ZoneError::EmptyBounds);
    }
    Ok(())
}

/// The first zone with an error, and the error.
pub open spec fn zones_error(
    zones: Seq<(String, Space)>,
    n: nat,
    present: spec_fn(Seq<char>) -> bool,
) -> Option<(int, ZoneErrorView)>
    decreases n,
{
    if n == 0 {
        None
    } else {
        match zones_error(zones, (n - 1) as nat, present) {
            Some(e) => Some(e),
            None => match zone_error(zones[n - 1].1, present) {
                Some(e) => Some((n - 1, e)),
                None => None,
            },
        }
    }
}

/// The zone error that was found, with its place.
pub open spec fn found_at(r: Option<(usize, ZoneError)>) -> Option<(int, ZoneErrorView)> {
    match r {
        Some((i, e)) => Some((i as int, e@)),
        None => None,
    }
}

proof fn lemma_first_zone_error(
    zones: Seq<(String, Space)>,
    k: nat,
    n: nat,
    present: spec_fn(Seq<char>) -> bool,
)
    requires
        k <= n,
        zones_error(zones, k, present) is Some,
    ensures
        zones_error(zones, n, present) == zones_error(zones, k, present),
    decreases n,
{
    if k < n {
        lemma_first_zone_error(zones, k, (n - 1) as nat, present);
    }
}

/// Check the zones of a level in order: the first that has an error, with the error.
pub fn first_invalid<F: Fn(&str) -> bool>(zones: &Vec<(String, Space)>, mesh_exists: F) -> (r:
    Option<(usize, ZoneError)>)
    requires
        forall|s: &str| #[trigger] call_requires(mesh_exists, (s,)),
    ensures
        forall|present: spec_fn(Seq<char>) -> bool| #[trigger]
            answers(mesh_exists, present) ==> found_at(r) == zones_error(
                zones@,
                zones@.len(),
                present,
            ),
        r matches Some((i, _)) ==> i < zones.len(),
{
    let mut i: usize = 0;
    while i < zones.len()
        invariant
            i <= zones.len(),
            forall|s: &str| #[trigger] call_requires(mesh_exists, (s,)),
            forall|present: spec_fn(Seq<char>) -> bool| #[trigger]
                answers(mesh_exists, present) ==> zones_error(zones@, i as nat, present) is None,
        decreases zones.len() - i,
    {
        let check: Result<(), ZoneError> = validate(&zones[i].1, &mesh_exists);
        assert forall|present: spec_fn(Seq<char>) -> bool| #[trigger]
            answers(mesh_exists, present) implies found(check) == zone_error(
            zones@[i as int].1,
            present,
        ) && zones_error(zones@, i as nat, present) is None by {
            assert(answers(&mesh_exists, present));
        }
        if let Err(e) = check {
            assert forall|present: spec_fn(Seq<char>) -> bool| #[trigger]
                answers(mesh_exists, present) implies zones_error(
                zones@,
                zones@.len(),
                present,
            ) == Some((i as int, e@)) by {
                assert(zones_error(zones@, (i + 1) as nat, present) == Some((i as int, e@)));
                lemma_first_zone_error(zones@, (i + 1) as nat, zones@.len(), present);
            }
            return Some((i, e));
        }
        i = i + 1;
    }
    None
}

/// How one zone lies to another: the delta between their frames, and the segment
/// that they share on each edge of the first, where the edges meet.
#[derive(Clone, Copy)]
pub struct Meeting {
    pub delta: [F32Bits; 2],
    pub east: Option<(F32Bits, F32Bits)>,
    pub west: Option<(F32Bits, F32Bits)>,
    pub north: Option<(F32Bits, F32Bits)>,
    pub south: Option<(F32Bits, F32Bits)>,
}

/// The connection over one edge, where there is one.
pub open spec fn edge_conn(
    neighbour: Seq<char>,
    side: u8,
    edge: Option<(F32Bits, F32Bits)>,
    delta: Seq<F32Bits>,
) -> Seq<ConnView> {
    match edge {
        Some((lo, hi)) => seq![
            ConnView { neighbour, side, span: seq![lo, hi, delta[0], delta[1]], gate: 0 },
        ],
        None => Seq::empty(),
    }
}

/// The connections to one neighbour: east, west, north, south.
pub open spec fn meeting_conns(neighbour: Seq<char>, m: Meeting) -> Seq<ConnView> {
    edge_conn(neighbour, SIDE_EAST, m.east, m.delta@) + edge_conn(
        neighbour,
        SIDE_WEST,
        m.west,
        m.delta@,
    ) + edge_conn(neighbour, SIDE_NORTH, m.north, m.delta@) + edge_conn(
        neighbour,
        SIDE_SOUTH,
        m.south,
        m.delta@,
    )
}

/// The connections of zone `i` to the first `n` zones.
pub open spec fn zone_conns(
    names: Seq<String>,
    meetings: Seq<Meeting>,
    i: int,
    n: nat,
) -> Seq<ConnView>
    decreases n,
{
    if n == 0 {
        Seq::empty()
    } else {
        let rest = zone_conns(names, meetings, i, (n - 1) as nat);
        if names[n - 1]@ == names[i]@ {
            rest
        } else {
            rest + meeting_conns(names[n - 1]@, meetings[n - 1])
        }
    }
}

/// Append the connection over one edge, where there is one.
fn push_edge(
    out: &mut Vec<Connection>,
    neighbour: &String,
    side: u8,
    edge: Option<(F32Bits, F32Bits)>,
    delta: [F32Bits; 2],
)
    ensures
        conn_views(final(out)@) == conn_views(
            old(out)@,
        ) + edge_conn(neighbour@, side, edge, delta@),
{
    if let Some((lo, hi)) = edge {
        out.push(Connection { neighbour: neighbour.clone(), side, lo, hi, delta, gate: 0 });
    }
    assert(conn_views(out@) =~= conn_views(old(out)@) + edge_conn(neighbour@, side, edge, delta@));
}

/// The connections of one zone to all others.
fn connect(names: &Vec<String>, meetings: &Vec<Meeting>, i: usize) -> (r: Vec<Connection>)
    requires
        i < names.len(),
        meetings.len() == names.len(),
    ensures
        conn_views(r@) == zone_conns(names@, meetings@, i as int, names@.len()),
{
    let mut out: Vec<Connection> = Vec::new();
    let mut j: usize = 0;
    assert(conn_views(out@) =~= Seq::<ConnView>::empty());
    while j < names.len()
        invariant
            i < names.len(),
            j <= names.len(),
            meetings.len() == names.len(),
            conn_views(out@) == zone_conns(names@, meetings@, i as int, j as nat),
        decreases names.len() - j,
    {
        let ghost rest = conn_views(out@);
        if !same_text(names[j].as_str(), names[i].as_str()) {
            let m: Meeting = meetings[j];
            push_edge(&mut out, &names[j], SIDE_EAST, m.east, m.delta);
            push_edge(&mut out, &names[j], SIDE_WEST, m.west, m.delta);
            push_edge(&mut out, &names[j], SIDE_NORTH, m.north, m.delta);
            push_edge(&mut out, &names[j], SIDE_SOUTH, m.south, m.delta);
            assert(conn_views(out@) =~= rest + meeting_conns(names@[j as int]@, m));
        }
        j = j + 1;
    }
    out
}

/// No later zone has the name of zone `i`.
pub open spec fn last_of_name(names: Seq<String>, i: int) -> bool {
    forall|j: int| i < j < names.len() ==> (#[trigger] names[j])@ != names[i]@
}

/// The map holds, for every zone, its connections to all others; of zones with one
/// name, those of the last.
pub open spec fn lists_connections(
    names: Seq<String>,
    meetings: Seq<Vec<Meeting>>,
    r: NameMap<Vec<Connection>>,
) -> bool {
    forall|i: int|
        0 <= i < names.len() && last_of_name(names, i) ==> {
            &&& r.lookup((#[trigger] names[i])@) is Some
            &&& conn_views(r.lookup(names[i]@)->0@) == zone_conns(
                names,
                meetings[i]@,
                i,
                names.len(),
            )
        }
}

/// Derive each zone's connections: `meetings[i][j]` says how zone `i` lies to zone
/// `j`. Of zones with the same name the last counts.
pub fn derive_connections(names: &Vec<String>, meetings: &Vec<Vec<Meeting>>) -> (r: NameMap<
    Vec<Connection>,
>)
    requires
        meetings.len() == names.len(),
        forall|i: int| 0 <= i < names.len() ==> (#[trigger] meetings@[i]).len() == names.len(),
    ensures
        r.wf(),
        forall|n: Seq<char>| #[trigger]
            r.names().contains(n) <==> exists|i: int| 0 <= i < names.len() && names@[i]@ == n,
        lists_connections(names@, meetings@, r),
{
    let mut out: NameMap<Vec<Connection>> = NameMap::new();
    let mut i: usize = 0;
    assert(out.names() =~= Seq::empty());
    while i < names.len()
        invariant
            i <= names.len(),
            meetings.len() == names.len(),
            forall|k: int| 0 <= k < names.len() ==> (#[trigger] meetings@[k]).len() == names.len(),
            out.wf(),
            forall|n: Seq<char>| #[trigger]
                out.names().contains(n) <==> exists|k: int| 0 <= k < i && names@[k]@ == n,
            forall|k: int|
                0 <= k < i && (forall|j: int| k < j < i ==> (#[trigger] names@[j])@ != names@[k]@)
                    ==> {
                    &&& out.lookup((#[trigger] names@[k])@) is Some
                    &&& conn_views(out.lookup(names@[k]@)->0@) == zone_conns(
                        names@,
                        meetings@[k]@,
                        k,
                        names@.len(),
                    )
                },
        decreases names.len() - i,
    {
        let ghost before = out;
        let conns: Vec<Connection> = connect(names, &meetings[i], i);
        let ghost c = conns;
        out.insert(names[i].clone(), conns);
        proof {
            assert forall|n: Seq<char>| #[trigger] out.names().contains(n) <==> exists|k: int|
                0 <= k < i + 1 && names@[k]@ == n by {
                if n == names@[i as int]@ {
                    assert(0 <= i < i + 1 && names@[i as int]@ == n);
                }
                if before.names().contains(n) {
                    let k = choose|k: int| 0 <= k < i && names@[k]@ == n;
                    assert(0 <= k < i + 1 && names@[k]@ == n);
                }
                if exists|k: int| 0 <= k < i + 1 && names@[k]@ == n {
                    let k = choose|k: int| 0 <= k < i + 1 && names@[k]@ == n;
                    if k < i {
                        assert(before.names().contains(n));
                    }
                }
            }
            assert forall|k: int|
                0 <= k < i + 1 && (forall|j: int|
                    k < j < i + 1 ==> (#[trigger] names@[j])@ != names@[k]@) implies {
                &&& out.lookup((#[trigger] names@[k])@) is Some
                &&& conn_views(out.lookup(names@[k]@)->0@) == zone_conns(
                    names@,
                    meetings@[k]@,
                    k,
                    names@.len(),
                )
            } by {
                if k < i {
                    assert(names@[i as int]@ != names@[k]@);
                    assert(out.lookup(names@[k]@) == before.lookup(names@[k]@));
                } else {
                    assert(out.lookup(names@[i as int]@) == Some(c));
                }
            }
        }
        i = i + 1;
    }
    assert forall|k: int| 0 <= k < names.len() && last_of_name(names@, k) implies {
        &&& out.lookup((#[trigger] names@[k])@) is Some
        &&& conn_views(out.lookup(names@[k]@)->0@) == zone_conns(
            names@,
            meetings@[k]@,
            k,
            names@.len(),
        )
    } by {
        assert(forall|j: int| k < j < names.len() ==> (#[trigger] names@[j])@ != names@[k]@);
    }
    out
}

/// The warning for a zone that abuts no other.
pub open spec fn isolation_text(stem: Seq<char>) -> Seq<char> {
    "zone `"@ + stem
        + "` is isolated \u{2014} no other zone's bounds abut it; check its `place`/`bounds`"@
}

/// Is this zone of a map isolated? A map of a single zone has none that is.
pub open spec fn isolated(conns: NameMap<Vec<Connection>>, stem: Seq<char>) -> bool {
    conns.entries@.len() >= 2 && (conns.lookup(stem) matches Some(c) && c@.len() == 0)
}

/// Warn of zones that abut nothing, in a map of several zones.
pub fn isolation_warnings(conns: &NameMap<Vec<Connection>>) -> (r: NameMap<Vec<String>>)
    requires
        conns.wf(),
    ensures
        r.wf(),
        forall|n: Seq<char>| #[trigger] r.lookup(n) is Some <==> isolated(*conns, n),
        forall|n: Seq<char>| #[trigger]
            r.lookup(n) matches Some(w) ==> texts(w@) == seq![isolation_text(n)],
{
    let mut out: NameMap<Vec<String>> = NameMap::new();
    assert(out.names() =~= Seq::empty());
    if conns.len() < 2 {
        return out;
    }
    let mut i: usize = 0;
    while i < conns.entries.len()
        invariant
            i <= conns.entries.len(),
            conns.wf(),
            conns.entries@.len() >= 2,
            out.wf(),
            forall|n: Seq<char>| #[trigger]
                out.lookup(n) is Some <==> exists|k: int| #[trigger] isolated_before(*conns, i as int, k, n),
            forall|n: Seq<char>| #[trigger]
                out.lookup(n) matches Some(w) ==> texts(w@) == seq![isolation_text(n)],
        decreases conns.entries.len() - i,
    {
        let ghost before = out;
        let stem: &String = &conns.entries[i].0;
        assert(conns.names()[i as int] == stem@);
        if conns.entries[i].1.len() == 0 {
            let mut t: String = String::new();
            push_text(&mut t, "zone `");
            push_text(&mut t, stem.as_str());
            push_text(
                &mut t,
                "` is isolated \u{2014} no other zone's bounds abut it; check its `place`/`bounds`",
            );
            assert(t@ =~= isolation_text(stem@));
            let mut w: Vec<String> = Vec::new();
            w.push(t);
            assert(texts(w@) =~= seq![isolation_text(stem@)]);
            let ghost wv = w;
            out.insert(stem.clone(), w);
            assert forall|n: Seq<char>| #[trigger] out.lookup(n) matches Some(w) ==> texts(w@)
                == seq![isolation_text(n)] by {
                if n == stem@ {
                    assert(out.lookup(n) == Some(wv));
                } else {
                    assert(out.lookup(n) == before.lookup(n));
                }
            }
        }
        proof {
            assert forall|n: Seq<char>| #[trigger] out.lookup(n) is Some <==> exists|k: int| #[trigger]
                isolated_before(*conns, i + 1, k, n) by {
                if n != stem@ {
                    assert(out.lookup(n) == before.lookup(n));
                }
                if before.lookup(n) is Some {
                    let k = choose|k: int| #[trigger] isolated_before(*conns, i as int, k, n);
                    assert(isolated_before(*conns, i + 1, k, n));
                }
                if conns.entries@[i as int].1@.len() == 0 && n == stem@ {
                    assert(isolated_before(*conns, i + 1, i as int, n));
                }
                if exists|k: int| #[trigger] isolated_before(*conns, i + 1, k, n) {
                    let k = choose|k: int| #[trigger] isolated_before(*conns, i + 1, k, n);
                    if k < i {
                        assert(isolated_before(*conns, i as int, k, n));
                    }
                }
            }
        }
        i = i + 1;
    }
    proof {
        assert forall|n: Seq<char>| #[trigger] out.lookup(n) is Some <==> isolated(*conns, n) by {
            if isolated(*conns, n) {
                let k = conns.names().index_of(n);
                assert(conns.names()[k] == n);
                assert(isolated_before(*conns, conns.entries@.len() as int, k, n));
            }
            if out.lookup(n) is Some {
                let k = choose|k: int| #[trigger]
                    isolated_before(*conns, conns.entries@.len() as int, k, n);
                lemma_index(conns.names(), k);
                assert(conns.names()[k] == n);
            }
        }
    }
    out
}

/// Entry `k`, among the first `n`, is named `name` and has no connections.
spec fn isolated_before(
    conns: NameMap<Vec<Connection>>,
    n: int,
    k: int,
    name: Seq<char>,
) -> bool {
    0 <= k < n && conns.entries@[k].0@ == name && conns.entries@[k].1@.len() == 0
}

/// One compiled zone.
#[derive(Debug)]
pub struct Built {
    /// Where the zone's content was read from.
    pub input: String,
    /// Where its blob was written to.
    pub output: String,
    /// Name of the level.
    pub level: String,
    /// Name of the zone.
    pub stem: String,
    pub warnings: Vec<String>,
}

/// A level being baked: its name, where its files are read from and the directory
/// that holds all baked levels.
#[derive(Debug)]
pub struct LevelDirs {
    pub name: String,
    pub src: String,
    pub dst_root: String,
}

/// One zone of a level, encoded.
pub struct BakedZone {
    pub built: Built,
    /// The `.scene` blob.
    pub blob: Vec<u8>,
}

/// The file of a level that holds a zone's content.
pub open spec fn content_path(src: Seq<char>, stem: Seq<char>) -> Seq<char> {
    joined_path(src, stem + ".ron"@)
}

/// The file that a zone is baked to.
pub open spec fn scene_path(dst_root: Seq<char>, level: Seq<char>, stem: Seq<char>) -> Seq<char> {
    joined_path(joined_path(dst_root, level), stem + "."@ + ASSET_EXT@)
}

/// The baked form of a zone of a map with these connections.
pub open spec fn baked_zone(
    dirs: LevelDirs,
    stem: Seq<char>,
    space: Space,
    conns: NameMap<Vec<Connection>>,
    z: BakedZone,
) -> bool {
    &&& z.built.stem@ == stem
    &&& z.built.level@ == dirs.name@
    &&& z.built.input@ == content_path(dirs.src@, stem)
    &&& z.built.output@ == scene_path(dirs.dst_root@, dirs.name@, stem)
    &&& z.blob@ == match conns.lookup(stem) {
        Some(c) => zone_le(zone_view(space, c@)),
        None => zone_le(zone_view(space, Seq::empty())),
    }
    &&& texts(z.built.warnings@) == if isolated(conns, stem) {
        seq![isolation_text(stem)]
    } else {
        Seq::empty()
    }
}

/// The file of a level that holds a zone's content.
pub fn content_file(src: &str, stem: &str) -> (r: String)
    ensures
        r@ == content_path(src@, stem@),
{
    let mut name: String = text(stem);
    push_text(&mut name, ".ron");
    join_path(src, name.as_str())
}

/// Encode every zone of a level, with its files and warnings.
pub fn bake_zones(
    dirs: &LevelDirs,
    zones: &Vec<(String, Space)>,
    conns: &NameMap<Vec<Connection>>,
) -> (r: Vec<BakedZone>)
    requires
        conns.wf(),
    ensures
        r.len() == zones.len(),
        forall|i: int|
            0 <= i < r.len() ==> baked_zone(
                *dirs,
                zones@[i].0@,
                zones@[i].1,
                *conns,
                #[trigger] r@[i],
            ),
{
    let warnings: NameMap<Vec<String>> = isolation_warnings(conns);
    let level_dir: String = join_path(dirs.dst_root.as_str(), dirs.name.as_str());
    let mut out: Vec<BakedZone> = Vec::new();
    let mut i: usize = 0;
    while i < zones.len()
        invariant
            i <= zones.len(),
            conns.wf(),
            warnings.wf(),
            level_dir@ == joined_path(dirs.dst_root@, dirs.name@),
            forall|n: Seq<char>| #[trigger] warnings.lookup(n) is Some <==> isolated(*conns, n),
            forall|n: Seq<char>| #[trigger]
                warnings.lookup(n) matches Some(w) ==> texts(w@) == seq![isolation_text(n)],
            out.len() == i,
            forall|k: int|
                0 <= k < i ==> baked_zone(
                    *dirs,
                    zones@[k].0@,
                    zones@[k].1,
                    *conns,
                    #[trigger] out@[k],
                ),
        decreases zones.len() - i,
    {
        let stem: &String = &zones[i].0;
        let space: &Space = &zones[i].1;
        let blob: Vec<u8> = match conns.get(stem.as_str()) {
            Some(c) => encode(space, c.as_slice()),
            None => {
                let none: Vec<Connection> = Vec::new();
                assert(none@ =~= Seq::empty());
                encode(space, none.as_slice())
            },
        };
        let notes: Vec<String> = match warnings.get(stem.as_str()) {
            Some(w) => copy_texts(w),
            None => Vec::new(),
        };
        assert(warnings.lookup(stem@) is Some <==> isolated(*conns, stem@));
        assert(texts(notes@) =~= if isolated(*conns, stem@) {
            seq![isolation_text(stem@)]
        } else {
            Seq::empty()
        });
        let mut file: String = text(stem.as_str());
        push_text(&mut file, ".");
        push_text(&mut file, ASSET_EXT);
        let built = Built {
            input: content_file(dirs.src.as_str(), stem.as_str()),
            output: join_path(level_dir.as_str(), file.as_str()),
            level: text(dirs.name.as_str()),
            stem: text(stem.as_str()),
            warnings: notes,
        };
        out.push(BakedZone { built, blob });
        i = i + 1;
    }
    out
}

/// Convert a name to a constant name that never starts with a digit.
pub fn const_name(stem: &str) -> (r: String)
    ensures
        r@ == guard_digit(upper_name(stem@)),
{
    guard_leading_digit(crate::bake::names::const_name(stem))
}

/// Level and zone of each compiled zone.
pub open spec fn built_names(v: Seq<Built>) -> Seq<(Seq<char>, Seq<char>)> {
    Seq::new(v.len(), |i: int| (v[i].level@, v[i].stem@))
}

/// The levels of a list of zones, sorted and without repetition.
pub open spec fn level_names(v: Seq<(Seq<char>, Seq<char>)>) -> Seq<Seq<char>>
    decreases v.len(),
{
    if v.len() == 0 {
        Seq::empty()
    } else {
        insert_sorted(level_names(v.drop_last()), v.last().0)
    }
}

/// The path of a zone's blob.
pub open spec fn zone_path(level: Seq<char>, stem: Seq<char>) -> Seq<char> {
    "nitro:/"@ + NITROFS_SUBDIR@ + "/"@ + level + "/"@ + stem + "."@ + ASSET_EXT@
}

/// The constants of the zones of one level, in order.
pub open spec fn zone_lines(v: Seq<(Seq<char>, Seq<char>)>, level: Seq<char>) -> Seq<char>
    decreases v.len(),
{
    if v.len() == 0 {
        Seq::empty()
    } else {
        let z = v.last();
        zone_lines(v.drop_last(), level) + if z.0 == level {
            const_line(1, guard_digit(upper_name(z.1)), zone_path(level, z.1))
        } else {
            Seq::empty()
        }
    }
}

/// One module per level, with the constants of its zones.
pub open spec fn levels_source(
    v: Seq<(Seq<char>, Seq<char>)>,
    names: Seq<Seq<char>>,
) -> Seq<char>
    decreases names.len(),
{
    if names.len() == 0 {
        Seq::empty()
    } else {
        levels_source(v, names.drop_last()) + "pub mod "@ + guard_digit(lower_name(names.last()))
            + " {\n"@ + zone_lines(v, names.last()) + "}\n"@
    }
}

/// The comment in front of the generated constants.
pub const BANNER: &'static str =
    "// @generated by scene2bin from assets/levels/<name>/.\n// Each constant is a NUL-terminated NitroFS path you can pass to\n// `bevy_nds_scene::load` (or `LoadSpace { path }`).\n";

/// The path of a zone's blob.
fn zone_path_text(level: &str, stem: &str) -> (r: String)
    ensures
        r@ == zone_path(level@, stem@),
{
    let mut t: String = String::new();
    push_text(&mut t, "nitro:/");
    push_text(&mut t, NITROFS_SUBDIR);
    push_text(&mut t, "/");
    push_text(&mut t, level);
    push_text(&mut t, "/");
    push_text(&mut t, stem);
    push_text(&mut t, ".");
    push_text(&mut t, ASSET_EXT);
    assert(t@ =~= zone_path(level@, stem@));
    t
}

/// Generate the source that declares one constant per compiled zone, in one module
/// per level.
pub fn emit_rust_consts(built: &[Built]) -> (s: String)
    ensures
        s@ == BANNER@ + levels_source(built_names(built@), level_names(built_names(built@))),
{
    let ghost all = built_names(built@);
    let mut names: Vec<String> = Vec::new();
    let mut i: usize = 0;
    assert(texts(names@) =~= level_names(all.take(0)));
    while i < built.len()
        invariant
            i <= built.len(),
            all == built_names(built@),
            texts(names@) == level_names(all.take(i as int)),
        decreases built.len() - i,
    {
        proof {
            assert(all.take(i + 1).drop_last() =~= all.take(i as int));
            assert(all.take(i + 1).last() == all[i as int]);
        }
        insert_name(&mut names, &built[i].level);
        i = i + 1;
    }
    assert(all.take(built.len() as int) =~= all);
    let mut s: String = String::new();
    push_text(&mut s, BANNER);
    let ghost name_texts = texts(names@);
    let mut k: usize = 0;
    assert(s@ =~= BANNER@ + levels_source(all, name_texts.take(0)));
    while k < names.len()
        invariant
            k <= names.len(),
            all == built_names(built@),
            name_texts == texts(names@),
            s@ == BANNER@ + levels_source(all, name_texts.take(k as int)),
        decreases names.len() - k,
    {
        let ghost head = s@;
        proof {
            assert(name_texts.take(k + 1).drop_last() =~= name_texts.take(k as int));
            assert(name_texts.take(k + 1).last() == names@[k as int]@);
        }
        push_text(&mut s, "pub mod ");
        push_text(&mut s, module_name(names[k].as_str()).as_str());
        push_text(&mut s, " {\n");
        push_zone_lines(&mut s, built, names[k].as_str());
        push_text(&mut s, "}\n");
        assert(s@ =~= BANNER@ + levels_source(all, name_texts.take(k + 1)));
        k = k + 1;
    }
    assert(name_texts.take(names.len() as int) =~= name_texts);
    s
}

/// Append the constants of the zones of one level.
fn push_zone_lines(s: &mut String, built: &[Built], level: &str)
    ensures
        final(s)@ == old(s)@ + zone_lines(built_names(built@), level@),
{
    let ghost all = built_names(built@);
    let ghost start = s@;
    let mut i: usize = 0;
    assert(s@ =~= start + zone_lines(all.take(0), level@));
    while i < built.len()
        invariant
            i <= built.len(),
            all == built_names(built@),
            s@ == start + zone_lines(all.take(i as int), level@),
        decreases built.len() - i,
    {
        proof {
            assert(all.take(i + 1).drop_last() =~= all.take(i as int));
            assert(all.take(i + 1).last() == all[i as int]);
        }
        let b: &Built = &built[i];
        if same_text(b.level.as_str(), level) {
            push_const_line(
                s,
                1,
                &const_name(b.stem.as_str()),
                &zone_path_text(level, b.stem.as_str()),
            );
        }
        assert(s@ =~= start + zone_lines(all.take(i + 1), level@));
        i = i + 1;
    }
    assert(all.take(built.len() as int) =~= all);
}

/// A directory under the levels root: its name and the names of its files.
pub struct LevelListing {
    pub name: String,
    pub files: Vec<String>,
}

/// Names sorted and without repetition.
pub open spec fn sorted_names(v: Seq<Seq<char>>) -> Seq<Seq<char>>
    decreases v.len(),
{
    if v.len() == 0 {
        Seq::empty()
    } else {
        insert_sorted(sorted_names(v.drop_last()), v.last())
    }
}

/// Is this the name of a zone's content file?
pub open spec fn is_zone_file(name: Seq<char>) -> bool {
    extension_of(name) == Some("ron"@) && name != MANIFEST_NAME@
}

/// The zones among a level's files, in order.
pub open spec fn zone_files(level: Seq<char>, files: Seq<Seq<char>>) -> Seq<(Seq<char>, Seq<char>)>
    decreases files.len(),
{
    if files.len() == 0 {
        Seq::empty()
    } else {
        let rest = zone_files(level, files.drop_last());
        if is_zone_file(files.last()) {
            rest.push((level, stem_of(files.last())))
        } else {
            rest
        }
    }
}

/// The zones that the directories hold, where a directory with a manifest is a level.
pub open spec fn predicted(levels: Seq<LevelListing>) -> Seq<(Seq<char>, Seq<char>)>
    decreases levels.len(),
{
    if levels.len() == 0 {
        Seq::empty()
    } else {
        let rest = predicted(levels.drop_last());
        let l = levels.last();
        if texts(l.files@).contains(MANIFEST_NAME@) {
            rest + zone_files(l.name@, sorted_names(texts(l.files@)))
        } else {
            rest
        }
    }
}

/// The names of a list, sorted and without repetition.
pub(crate) fn sort_names(v: &Vec<String>) -> (r: Vec<String>)
    ensures
        texts(r@) == sorted_names(texts(v@)),
{
    let ghost all = texts(v@);
    let mut out: Vec<String> = Vec::new();
    let mut i: usize = 0;
    assert(texts(out@) =~= sorted_names(all.take(0)));
    while i < v.len()
        invariant
            i <= v.len(),
            all == texts(v@),
            texts(out@) == sorted_names(all.take(i as int)),
        decreases v.len() - i,
    {
        proof {
            assert(all.take(i + 1).drop_last() =~= all.take(i as int));
            assert(all.take(i + 1).last() == v@[i as int]@);
        }
        insert_name(&mut out, &v[i]);
        i = i + 1;
    }
    assert(all.take(v.len() as int) =~= all);
    out
}

/// Is `name` in the list?
fn has_name(v: &Vec<String>, name: &str) -> (r: bool)
    ensures
        r == texts(v@).contains(name@),
{
    let mut i: usize = 0;
    while i < v.len()
        invariant
            i <= v.len(),
            forall|k: int| 0 <= k < i ==> texts(v@)[k] != name@,
        decreases v.len() - i,
    {
        if same_text(v[i].as_str(), name) {
            assert(texts(v@)[i as int] == name@);
            return true;
        }
        assert(texts(v@)[i as int] != name@);
        i = i + 1;
    }
    false
}

/// Append the zones among a level's files.
fn push_zone_files(out: &mut Vec<Built>, level: &String, files: &Vec<String>)
    ensures
        built_names(final(out)@) == built_names(old(out)@) + zone_files(level@, texts(files@)),
{
    let ghost all = texts(files@);
    let ghost start = built_names(out@);
    let mut i: usize = 0;
    assert(built_names(out@) =~= start + zone_files(level@, all.take(0)));
    while i < files.len()
        invariant
            i <= files.len(),
            all == texts(files@),
            built_names(out@) == start + zone_files(level@, all.take(i as int)),
        decreases files.len() - i,
    {
        proof {
            assert(all.take(i + 1).drop_last() =~= all.take(i as int));
            assert(all.take(i + 1).last() == files@[i as int]@);
        }
        let ghost before = out@;
        let (stem, ext) = split_file_name(files[i].as_str());
        let is_ron: bool = match ext {
            Some(e) => same_text(e.as_str(), "ron"),
            None => false,
        };
        if is_ron && !same_text(files[i].as_str(), MANIFEST_NAME) {
            let ghost st = stem@;
            out.push(
                Built {
                    input: files[i].clone(),
                    output: zone_path_text(level.as_str(), stem.as_str()),
                    level: level.clone(),
                    stem,
                    warnings: Vec::new(),
                },
            );
            assert(built_names(out@) =~= built_names(before).push((level@, st)));
        }
        assert(built_names(out@) =~= start + zone_files(level@, all.take(i + 1)));
        i = i + 1;
    }
    assert(all.take(files.len() as int) =~= all);
}

/// Generate the constants from the directory listing alone, where nothing can be
/// baked: a level is a directory with a manifest, and its zones are its other
/// `.ron` files.
pub fn predict_consts(levels: &[LevelListing]) -> (s: String)
    ensures
        s@ == BANNER@ + levels_source(predicted(levels@), level_names(predicted(levels@))),
{
    let mut built: Vec<Built> = Vec::new();
    let mut i: usize = 0;
    assert(built_names(built@) =~= predicted(levels@.take(0)));
    while i < levels.len()
        invariant
            i <= levels.len(),
            built_names(built@) == predicted(levels@.take(i as int)),
        decreases levels.len() - i,
    {
        proof {
            assert(levels@.take(i + 1).drop_last() =~= levels@.take(i as int));
            assert(levels@.take(i + 1).last() == levels@[i as int]);
        }
        let l: &LevelListing = &levels[i];
        if has_name(&l.files, MANIFEST_NAME) {
            let files: Vec<String> = sort_names(&l.files);
            push_zone_files(&mut built, &l.name, &files);
        }
        i = i + 1;
    }
    assert(levels@.take(levels.len() as int) =~= levels@);
    emit_rust_consts(built.as_slice())
}

/// A connection over `side` leads to the zone `to`.
pub open spec fn leads(conns: Seq<ConnView>, to: Seq<char>, side: u8) -> bool {
    exists|k: int|
        0 <= k < conns.len() && (#[trigger] conns[k]).neighbour == to && conns[k].side == side
}

/// Where a meeting is over one side.
pub open spec fn edge_of(m: Meeting, side: u8) -> Option<(F32Bits, F32Bits)> {
    if side == SIDE_EAST {
        m.east
    } else if side == SIDE_WEST {
        m.west
    } else if side == SIDE_NORTH {
        m.north
    } else if side == SIDE_SOUTH {
        m.south
    } else {
        None
    }
}

/// The side across.
pub open spec fn opposite(side: u8) -> u8 {
    if side == SIDE_EAST {
        SIDE_WEST
    } else if side == SIDE_WEST {
        SIDE_EAST
    } else if side == SIDE_NORTH {
        SIDE_SOUTH
    } else {
        SIDE_NORTH
    }
}

/// No two zones have the same name.
pub open spec fn names_differ(names: Seq<String>) -> bool {
    forall|i: int, j: int|
        0 <= i < j < names.len() ==> (#[trigger] names[i])@ != (#[trigger] names[j])@
}

/// The connections to a neighbour name it, and there is one over a side exactly
/// where the zones meet there.
proof fn lemma_meeting_conns(neighbour: Seq<char>, m: Meeting, side: u8)
    ensures
        forall|k: int|
            0 <= k < meeting_conns(neighbour, m).len() ==> (#[trigger] meeting_conns(
                neighbour,
                m,
            )[k]).neighbour == neighbour,
        leads(meeting_conns(neighbour, m), neighbour, side) == (edge_of(m, side) is Some),
{
    let e = edge_conn(neighbour, SIDE_EAST, m.east, m.delta@);
    let w = edge_conn(neighbour, SIDE_WEST, m.west, m.delta@);
    let n = edge_conn(neighbour, SIDE_NORTH, m.north, m.delta@);
    let s = edge_conn(neighbour, SIDE_SOUTH, m.south, m.delta@);
    let all = meeting_conns(neighbour, m);
    assert(all == e + w + n + s);
    if edge_of(m, side) is Some {
        let k: int = if side == SIDE_EAST {
            0
        } else if side == SIDE_WEST {
            e.len() as int
        } else if side == SIDE_NORTH {
            (e.len() + w.len()) as int
        } else {
            (e.len() + w.len() + n.len()) as int
        };
        assert(all[k].neighbour == neighbour && all[k].side == side);
    }
}

/// Every connection leads to another zone of the level, and there is one over a side
/// exactly where the two zones meet there.
pub proof fn law_connections_are_meetings(
    names: Seq<String>,
    meetings: Seq<Meeting>,
    i: int,
    n: nat,
    j: int,
    side: u8,
)
    requires
        names_differ(names),
        0 <= i < names.len(),
        n <= names.len(),
        0 <= j < n,
        j != i,
    ensures
        leads(zone_conns(names, meetings, i, n), names[j]@, side) == (edge_of(meetings[j], side)
            is Some),
        forall|k: int|
            0 <= k < zone_conns(names, meetings, i, n).len() ==> (#[trigger] zone_conns(
                names,
                meetings,
                i,
                n,
            )[k]).neighbour != names[i]@,
{
    lemma_connections(names, meetings, i, n, j, side);
}

/// As the law says, also for a zone that is not among the first `n`.
proof fn lemma_connections(
    names: Seq<String>,
    meetings: Seq<Meeting>,
    i: int,
    n: nat,
    j: int,
    side: u8,
)
    requires
        names_differ(names),
        0 <= i < names.len(),
        n <= names.len(),
        0 <= j < names.len(),
        j != i,
    ensures
        leads(zone_conns(names, meetings, i, n), names[j]@, side) == (j < n && edge_of(
            meetings[j],
            side,
        ) is Some),
        forall|k: int|
            0 <= k < zone_conns(names, meetings, i, n).len() ==> (#[trigger] zone_conns(
                names,
                meetings,
                i,
                n,
            )[k]).neighbour != names[i]@,
    decreases n,
{
    if n > 0 {
        let last = n - 1;
        lemma_connections(names, meetings, i, last as nat, j, side);
        let rest = zone_conns(names, meetings, i, last as nat);
        let all = zone_conns(names, meetings, i, n);
        if names[last]@ == names[i]@ {
            assert(last == i);
        } else {
            let m = meeting_conns(names[last]@, meetings[last]);
            lemma_meeting_conns(names[last]@, meetings[last], side);
            assert(all == rest + m);
            if leads(rest, names[j]@, side) {
                let k = choose|k: int|
                    0 <= k < rest.len() && (#[trigger] rest[k]).neighbour == names[j]@
                        && rest[k].side == side;
                assert(all[k] == rest[k]);
            }
            if last == j && leads(m, names[j]@, side) {
                let k = choose|k: int|
                    0 <= k < m.len() && (#[trigger] m[k]).neighbour == names[j]@ && m[k].side
                        == side;
                assert(all[rest.len() + k] == m[k]);
            }
            if leads(all, names[j]@, side) {
                let k = choose|k: int|
                    0 <= k < all.len() && (#[trigger] all[k]).neighbour == names[j]@
                        && all[k].side == side;
                if k < rest.len() {
                    assert(all[k] == rest[k]);
                } else {
                    assert(all[k] == m[k - rest.len()]);
                    assert(names[last]@ == names[j]@);
                    assert(last == j);
                }
            }
            assert forall|k: int| 0 <= k < all.len() implies (#[trigger] all[k]).neighbour
                != names[i]@ by {
                if k < rest.len() {
                    assert(all[k] == rest[k]);
                } else {
                    assert(all[k] == m[k - rest.len()]);
                }
            }
        }
    }
}

/// Connections are mutual: where two zones see each other across opposite sides, a
/// connection one way goes with one the other way.
pub proof fn law_connections_are_mutual(
    names: Seq<String>,
    meetings: Seq<Vec<Meeting>>,
    i: int,
    j: int,
    side: u8,
)
    requires
        names_differ(names),
        0 <= i < names.len(),
        0 <= j < names.len(),
        i != j,
        (edge_of(meetings[i]@[j], side) is Some) == (edge_of(meetings[j]@[i], opposite(side))
            is Some),
    ensures
        leads(zone_conns(names, meetings[i]@, i, names.len()), names[j]@, side) == leads(
            zone_conns(names, meetings[j]@, j, names.len()),
            names[i]@,
            opposite(side),
        ),
{
    law_connections_are_meetings(names, meetings[i]@, i, names.len(), j, side);
    law_connections_are_meetings(names, meetings[j]@, j, names.len(), i, opposite(side));
}

/// Every connection is what its zone's meeting with the neighbour gives over its
/// side: the shared segment, the delta between the frames, and an open gate.
pub proof fn law_connection_is_its_meeting(
    names: Seq<String>,
    meetings: Seq<Meeting>,
    i: int,
    j: int,
    c: ConnView,
)
    requires
        names_differ(names),
        0 <= i < names.len(),
        0 <= j < names.len(),
        zone_conns(names, meetings, i, names.len()).contains(c),
        c.neighbour == names[j]@,
    ensures
        edge_of(meetings[j], c.side) matches Some((lo, hi)) && c.span == seq![
            lo,
            hi,
            meetings[j].delta@[0],
            meetings[j].delta@[1],
        ],
        c.gate == 0,
{
    lemma_connection_is_a_meeting(names, meetings, i, names.len(), c);
    let m = choose|m: int|
        0 <= m < names.len() && names[m]@ == c.neighbour && meeting_conns(
            names[m]@,
            #[trigger] meetings[m],
        ).contains(c);
    if m != j {
        assert(names[m]@ != names[j]@);
    }
    lemma_meeting_conn(names[j]@, meetings[j], c);
}

/// A connection comes from the meeting with the zone that it leads to.
proof fn lemma_connection_is_a_meeting(
    names: Seq<String>,
    meetings: Seq<Meeting>,
    i: int,
    n: nat,
    c: ConnView,
)
    requires
        n <= names.len(),
        zone_conns(names, meetings, i, n).contains(c),
    ensures
        exists|m: int|
            0 <= m < n && names[m]@ == c.neighbour && meeting_conns(
                names[m]@,
                #[trigger] meetings[m],
            ).contains(c),
    decreases n,
{
    if n > 0 {
        let last = n - 1;
        let rest = zone_conns(names, meetings, i, last as nat);
        let all = zone_conns(names, meetings, i, n);
        let own = meeting_conns(names[last]@, meetings[last]);
        let k = choose|k: int| 0 <= k < all.len() && all[k] == c;
        if names[last]@ == names[i]@ || k < rest.len() {
            assert(rest[k] == c);
            lemma_connection_is_a_meeting(names, meetings, i, last as nat, c);
        } else {
            assert(own[k - rest.len()] == c);
            assert(own.contains(c));
            lemma_meeting_conns(names[last]@, meetings[last], c.side);
        }
    }
}

/// What a connection of a meeting holds.
proof fn lemma_meeting_conn(neighbour: Seq<char>, m: Meeting, c: ConnView)
    requires
        meeting_conns(neighbour, m).contains(c),
    ensures
        edge_of(m, c.side) matches Some((lo, hi)) && c.span == seq![
            lo,
            hi,
            m.delta@[0],
            m.delta@[1],
        ],
        c.gate == 0,
{
    let e = edge_conn(neighbour, SIDE_EAST, m.east, m.delta@);
    let w = edge_conn(neighbour, SIDE_WEST, m.west, m.delta@);
    let n = edge_conn(neighbour, SIDE_NORTH, m.north, m.delta@);
    let all = meeting_conns(neighbour, m);
    let k = choose|k: int| 0 <= k < all.len() && all[k] == c;
    if k < e.len() {
        assert(c.side == SIDE_EAST);
    } else if k < e.len() + w.len() {
        assert(c.side == SIDE_WEST);
    } else if k < e.len() + w.len() + n.len() {
        assert(c.side == SIDE_NORTH);
    } else {
        assert(c.side == SIDE_SOUTH);
    }
}

/// Crossing back undoes crossing: where the deltas of two zones' meetings oppose
/// each other along an axis (`k` is 0 or 1), so do those of the connections between
/// them.
pub proof fn law_connection_deltas_oppose(
    names: Seq<String>,
    meetings: Seq<Vec<Meeting>>,
    i: int,
    j: int,
    c: ConnView,
    d: ConnView,
    k: int,
)
    requires
        names_differ(names),
        0 <= i < names.len(),
        0 <= j < names.len(),
        zone_conns(names, meetings[i]@, i, names.len()).contains(c),
        c.neighbour == names[j]@,
        zone_conns(names, meetings[j]@, j, names.len()).contains(d),
        d.neighbour == names[i]@,
        0 <= k < 2,
    ensures
        meetings[j]@[i].delta@[k] == meetings[i]@[j].delta@[k].negated() ==> d.span[2 + k]
            == c.span[2 + k].negated(),
        meetings[i]@[j].delta@[k].opposes(meetings[j]@[i].delta@[k]) ==> c.span[2 + k].opposes(
            d.span[2 + k],
        ),
{
    law_connection_is_its_meeting(names, meetings[i]@, i, j, c);
    law_connection_is_its_meeting(names, meetings[j]@, j, i, d);
}

/// Resolving a use without overrides keeps everything of the prefab and takes the
/// position from the use.
pub proof fn law_plain_use_is_the_prefab(pf: Prefab, pos: Seq<F32Bits>)
    ensures
        ({
            let i = used_prefab(pf, pos, None, None, None, None, Seq::empty());
            &&& i.pos == pos
            &&& i.mesh == name_view(pf.mesh)
            &&& i.role == pf.role@
            &&& i.rot == pf.rot@
            &&& i.scale == pf.scale@
            &&& i.material == material_view(pf.material)
            &&& i.flags == pf.flags
            &&& i.path == points_of(pf.path@)
        }),
{
}

/// An assembled level has its manifest's zones, each with its own layout, in the
/// order of their names.
pub proof fn law_assembled_follows_the_manifest(
    level: Level,
    zones: NameMap<Zone>,
    prefabs: PrefabLib,
    i: int,
)
    requires
        assembled(level, zones, prefabs) is Ok,
        0 <= i < level.zones.entries@.len(),
    ensures
        ({
            let spaces = assembled(level, zones, prefabs)->Ok_0;
            let entry = level.zones.entries@[i];
            &&& spaces.len() == level.zones.entries@.len()
            &&& spaces[i].0 == entry.0@
            &&& spaces[i].1.camera == scene_camera(entry.1.camera)
            &&& spaces[i].1.place == entry.1.place@
            &&& spaces[i].1.bounds == bounds_view(entry.1.bounds)
        }),
{
    lemma_assembled_layout(level, zones, prefabs, level.zones.entries@.len(), i);
}

proof fn lemma_assembled_layout(
    level: Level,
    zones: NameMap<Zone>,
    prefabs: PrefabLib,
    n: nat,
    i: int,
)
    requires
        assembled_list(level, zones, prefabs, n) is Ok,
        0 <= i < n,
    ensures
        ({
            let spaces = assembled_list(level, zones, prefabs, n)->Ok_0;
            let entry = level.zones.entries@[i];
            &&& spaces.len() == n
            &&& spaces[i].0 == entry.0@
            &&& spaces[i].1.camera == scene_camera(entry.1.camera)
            &&& spaces[i].1.place == entry.1.place@
            &&& spaces[i].1.bounds == bounds_view(entry.1.bounds)
        }),
    decreases n,
{
    if i < n - 1 {
        lemma_assembled_layout(level, zones, prefabs, (n - 1) as nat, i);
    } else if n >= 2 {
        lemma_assembled_layout(level, zones, prefabs, (n - 1) as nat, 0);
    }
}

} // verus!
