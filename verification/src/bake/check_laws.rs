//! What the checks of a level find, and what an assembled and baked level holds.

use crate::bake::const_tree::texts;
use crate::bake::level_laws::has_line;
use crate::bake::levels::{
    assemble, assembled, assembled_list, bake_zones, baked_zone, found, found_at, instance_error,
    instances_error, isolated, isolation_text, isolation_warnings, resolved, resolved_list,
    space_views, zone_error, zone_space, zones_error, BakedZone, Level, LevelDirs, PrefabLib, Zone,
    ZoneEntry, ZoneError, ZoneErrorView,
};
use crate::bake::scene2bin::{
    bounds_view, encode, placed_views, scene_camera, Bounds, Camera, Connection, Instance, Space,
};
use crate::float::F32Bits;
use crate::name_map::{lemma_index, NameMap};
use crate::scene::asset::{CameraMode, InstanceView};
use crate::strings::{decimal, is_white_space};
use vstd::prelude::*;

verus! {

/// A role that says something.
pub open spec fn has_role(i: Instance) -> bool {
    exists|k: int| 0 <= k < i.role@.len() && !is_white_space(#[trigger] i.role@[k])
}

/// An instance without a mesh, or with one that has a source.
pub open spec fn has_mesh(i: Instance, present: spec_fn(Seq<char>) -> bool) -> bool {
    i.mesh matches Some(m) ==> present(m@)
}

/// An instance with nothing wrong.
pub open spec fn sound(i: Instance, present: spec_fn(Seq<char>) -> bool) -> bool {
    has_role(i) && has_mesh(i, present)
}

/// A rectangle with room on both axes; a side that is no number leaves it open.
pub open spec fn has_room(b: Bounds) -> bool {
    !b.min@[0].at_least(b.max@[0]) && !b.min@[1].at_least(b.max@[1])
}

proof fn lemma_instance(i: Instance, k: int, present: spec_fn(Seq<char>) -> bool)
    ensures
        instance_error(i@, k, present) is None <==> sound(i, present),
        instance_error(i@, k, present) matches Some(ZoneErrorView::EmptyRole { index }) ==> index
            == k && !has_role(i),
        instance_error(i@, k, present) matches Some(
            ZoneErrorView::MissingMesh { index, role, mesh },
        ) ==> index == k && has_role(i) && role == i.role@ && (i.mesh matches Some(m) && mesh == m@)
            && !present(mesh),
        !(instance_error(i@, k, present) matches Some(ZoneErrorView::EmptyBounds)),
{
}

proof fn lemma_instances(v: Seq<Instance>, n: nat, present: spec_fn(Seq<char>) -> bool)
    requires
        n <= v.len(),
    ensures
        instances_error(placed_views(v), n, present) is None <==> forall|k: int|
            0 <= k < n ==> sound(#[trigger] v[k], present),
        instances_error(placed_views(v), n, present) matches Some(e) ==> exists|k: int|
            0 <= k < n && instance_error(#[trigger] v[k]@, k, present) == Some(e) && forall|j: int|
                0 <= j < k ==> sound(#[trigger] v[j], present),
    decreases n,
{
    if n > 0 {
        let m = (n - 1) as nat;
        lemma_instances(v, m, present);
        lemma_instance(v[n - 1], n - 1, present);
        assert(placed_views(v)[n - 1] == v[n - 1]@);
        if instances_error(placed_views(v), m, present) is None && instance_error(
            v[n - 1]@,
            n - 1,
            present,
        ) is Some {
            let e = instance_error(v[n - 1]@, n - 1, present)->0;
            assert(instance_error(v[n - 1]@, n - 1, present) == Some(e));
            assert(forall|j: int| 0 <= j < n - 1 ==> sound(#[trigger] v[j], present));
        }
    }
}

/// A zone passes its check exactly where every instance has a role, every mesh that is
/// named has a source, and its rectangle has room on both axes. What is reported is the
/// first instance that fails, by its number, its role before its mesh; the rectangle is
/// reported only where all instances are sound.
pub proof fn law_check_finds_the_first_fault(
    space: Space,
    present: spec_fn(Seq<char>) -> bool,
    r: Result<(), ZoneError>,
)
    requires
        found(r) == zone_error(space, present),
    ensures
        r is Ok <==> has_room(space.bounds) && forall|k: int|
            0 <= k < space.instances@.len() ==> sound(#[trigger] space.instances@[k], present),
        r matches Err(e) ==> match e {
            ZoneError::EmptyRole { index } => index < space.instances@.len() && !has_role(
                space.instances@[index as int],
            ) && forall|j: int|
                0 <= j < index ==> sound(#[trigger] space.instances@[j], present),
            ZoneError::MissingMesh { index, role, mesh } => {
                &&& index < space.instances@.len()
                &&& has_role(space.instances@[index as int])
                &&& role@ == space.instances@[index as int].role@
                &&& space.instances@[index as int].mesh matches Some(m) && mesh@ == m@
                &&& !present(mesh@)
                &&& forall|j: int| 0 <= j < index ==> sound(#[trigger] space.instances@[j], present)
            },
            ZoneError::EmptyBounds => !has_room(space.bounds) && forall|j: int|
                0 <= j < space.instances@.len() ==> sound(#[trigger] space.instances@[j], present),
        },
{
    let v = space.instances@;
    lemma_instances(v, v.len(), present);
    if let Some(e) = instances_error(placed_views(v), v.len(), present) {
        let k = choose|k: int|
            0 <= k < v.len() && instance_error(#[trigger] v[k]@, k, present) == Some(e)
                && forall|j: int| 0 <= j < k ==> sound(#[trigger] v[j], present);
        lemma_instance(v[k], k, present);
        assert(!sound(v[k], present));
    }
}

/// What is reported names the instance by its number, with its role and mesh where the
/// mesh is missing, or the two corners of the rectangle.
pub proof fn law_fault_is_named(e: &ZoneError, min: &str, max: &str, r: String)
    requires
        call_ensures(ZoneError::message, (e, min, max), r),
    ensures
        match *e {
            ZoneError::EmptyRole { index } => has_line(r@, decimal(index as nat)),
            ZoneError::MissingMesh { index, role, mesh } => has_line(r@, decimal(index as nat))
                && has_line(r@, role@) && has_line(r@, mesh@),
            ZoneError::EmptyBounds => has_line(r@, min@ + " must be strictly less than max "@ + max@),
        },
{
    match *e {
        ZoneError::EmptyRole { index } => {
            let pre = "instance "@;
            let d = decimal(index as nat);
            assert(r@ =~= pre + d + ": empty `role`"@);
        },
        ZoneError::MissingMesh { index, role, mesh } => {
            let d = decimal(index as nat);
            let a = "instance "@;
            let b = a + d + " (role `"@;
            let c = b + role@ + "`): mesh `"@;
            let z = "` has no source `"@ + mesh@ + ".obj`"@;
            assert(r@ =~= c + mesh@ + z);
            let y = "`): mesh `"@ + mesh@ + z;
            assert(r@ =~= b + role@ + y);
            let x = " (role `"@ + role@ + y;
            assert(r@ =~= a + d + x);
        },
        ZoneError::EmptyBounds => {
            let pre = "bounds min "@;
            let mid = min@ + " must be strictly less than max "@ + max@;
            let post = " on both axes"@;
            assert(r@ =~= pre + mid + post);
        },
    }
}

/// Of several zones the first that fails its check is reported, with its fault.
pub proof fn law_first_invalid_zone_is_found(
    zones: Seq<(String, Space)>,
    present: spec_fn(Seq<char>) -> bool,
    r: Option<(usize, ZoneError)>,
)
    requires
        found_at(r) == zones_error(zones, zones.len(), present),
    ensures
        r is None <==> forall|k: int|
            0 <= k < zones.len() ==> zone_error((#[trigger] zones[k]).1, present) is None,
        r matches Some((i, e)) ==> {
            &&& i < zones.len()
            &&& zone_error(zones[i as int].1, present) == Some(e@)
            &&& forall|k: int|
                0 <= k < i ==> zone_error((#[trigger] zones[k]).1, present) is None
        },
{
    lemma_zones(zones, zones.len(), present);
}

proof fn lemma_zones(zones: Seq<(String, Space)>, n: nat, present: spec_fn(Seq<char>) -> bool)
    requires
        n <= zones.len(),
    ensures
        zones_error(zones, n, present) is None <==> forall|k: int|
            0 <= k < n ==> zone_error((#[trigger] zones[k]).1, present) is None,
        zones_error(zones, n, present) matches Some((i, e)) ==> 0 <= i < n && zone_error(
            zones[i].1,
            present,
        ) == Some(e) && forall|k: int|
            0 <= k < i ==> zone_error((#[trigger] zones[k]).1, present) is None,
    decreases n,
{
    if n > 0 {
        lemma_zones(zones, (n - 1) as nat, present);
        assert(zones[n - 1].1 == zones[n - 1].1);
    }
}

/// Two cameras frame alike.
pub open spec fn same_camera(c: Camera, m: CameraMode) -> bool {
    match (c, m) {
        (
            Camera::Follow { height, dist, pitch },
            CameraMode::Follow { height: h, dist: d, pitch: p },
        ) => height == h && dist == d && pitch == p,
        (Camera::TopDown { height }, CameraMode::TopDown { height: h }) => height == h,
        (
            Camera::Rail2_5D { height, dist, pitch },
            CameraMode::Rail2_5D { height: h, dist: d, pitch: p },
        ) => height == h && dist == d && pitch == p,
        (Camera::CaptureFraming, CameraMode::CaptureFraming) => true,
        _ => false,
    }
}

/// All placements of a zone make an instance.
pub open spec fn resolves(zone: Zone, prefabs: PrefabLib) -> bool {
    forall|k: int|
        0 <= k < zone.instances@.len() ==> resolved(#[trigger] zone.instances@[k], prefabs) is Ok
}

/// Each instance is what its placement makes.
pub open spec fn placed_from(v: Seq<InstanceView>, zone: Zone, prefabs: PrefabLib) -> bool {
    &&& v.len() == zone.instances@.len()
    &&& forall|k: int|
        0 <= k < v.len() ==> resolved(#[trigger] zone.instances@[k], prefabs) == Ok::<
            InstanceView,
            Seq<char>,
        >(v[k])
}

proof fn lemma_resolved_list(stem: Seq<char>, zone: Zone, prefabs: PrefabLib, n: nat)
    requires
        n <= zone.instances@.len(),
    ensures
        resolved_list(stem, zone.instances@, prefabs, n) is Ok <==> forall|k: int|
            0 <= k < n ==> resolved(#[trigger] zone.instances@[k], prefabs) is Ok,
        resolved_list(stem, zone.instances@, prefabs, n) matches Ok(v) ==> v.len() == n
            && forall|k: int|
            0 <= k < n ==> resolved(#[trigger] zone.instances@[k], prefabs) == Ok::<
                InstanceView,
                Seq<char>,
            >(v[k]),
        resolved_list(stem, zone.instances@, prefabs, n) matches Err(e) ==> has_line(e, stem),
    decreases n,
{
    if n > 0 {
        let m = (n - 1) as nat;
        lemma_resolved_list(stem, zone, prefabs, m);
        let last = resolved(zone.instances@[n - 1], prefabs);
        if resolved_list(stem, zone.instances@, prefabs, m) is Ok {
            if let Err(e) = last {
                let post = "` instance "@ + decimal((n - 1) as nat) + ": "@ + e;
                let all = "zone `"@ + stem + "` instance "@ + decimal(
                    (n - 1) as nat,
                ) + ": "@ + e;
                assert(all =~= "zone `"@ + stem + post);
            } else {
                assert(last is Ok);
            }
        }
    }
}

/// A zone of a level can be put together: it has content, and all its placements make
/// an instance.
pub open spec fn can_stand(stem: Seq<char>, zones: NameMap<Zone>, prefabs: PrefabLib) -> bool {
    zones.lookup(stem) matches Some(zone) && resolves(zone, prefabs)
}

proof fn lemma_zone_space(
    stem: Seq<char>,
    entry: ZoneEntry,
    zones: NameMap<Zone>,
    prefabs: PrefabLib,
)
    ensures
        zone_space(stem, entry, zones, prefabs) is Ok <==> can_stand(stem, zones, prefabs),
        zone_space(stem, entry, zones, prefabs) matches Ok(s) ==> placed_from(
            s.instances,
            zones.lookup(stem)->0,
            prefabs,
        ) && same_camera(entry.camera, s.camera) && s.place == entry.place@ && s.bounds
            == bounds_view(entry.bounds),
        zone_space(stem, entry, zones, prefabs) matches Err(e) ==> has_line(e, stem),
{
    if let Some(zone) = zones.lookup(stem) {
        lemma_resolved_list(stem, zone, prefabs, zone.instances@.len());
    } else {
        let post = "` in the manifest has no `"@ + stem + ".ron` content file"@;
        let all = "zone `"@ + stem + "` in the manifest has no `"@ + stem + ".ron` content file"@;
        assert(all =~= "zone `"@ + stem + post);
    }
}

proof fn lemma_assembled(level: Level, zones: NameMap<Zone>, prefabs: PrefabLib, n: nat)
    requires
        n <= level.zones.entries@.len(),
    ensures
        assembled_list(level, zones, prefabs, n) is Ok <==> forall|i: int|
            0 <= i < n ==> can_stand((#[trigger] level.zones.entries@[i]).0@, zones, prefabs),
        assembled_list(level, zones, prefabs, n) matches Ok(v) ==> v.len() == n && forall|i: int|
            0 <= i < n ==> (#[trigger] v[i]).0 == level.zones.entries@[i].0@ && zone_space(
                level.zones.entries@[i].0@,
                level.zones.entries@[i].1,
                zones,
                prefabs,
            ) == Ok::<_, Seq<char>>(v[i].1),
        assembled_list(level, zones, prefabs, n) matches Err(e) ==> exists|i: int|
            0 <= i < n && !can_stand((#[trigger] level.zones.entries@[i]).0@, zones, prefabs)
                && has_line(e, level.zones.entries@[i].0@) && forall|j: int|
                0 <= j < i ==> can_stand((#[trigger] level.zones.entries@[j]).0@, zones, prefabs),
    decreases n,
{
    if n > 0 {
        lemma_assembled(level, zones, prefabs, (n - 1) as nat);
        let (stem, entry) = level.zones.entries@[n - 1];
        lemma_zone_space(stem@, entry, zones, prefabs);
        assert(level.zones.entries@[n - 1].0@ == stem@);
    }
}

/// An instance of a space by its values.
pub open spec fn space_instances(s: Space) -> Seq<InstanceView> {
    placed_views(s.instances@)
}

/// A level comes together exactly where its entry is one of its zones and every zone has
/// content whose placements all make an instance. Zone `i` then is the manifest's `i`th,
/// with that entry's camera, place and rectangle and its own content's instances in
/// order. Where it does not, the message names the entry, or the first zone that cannot
/// stand.
pub proof fn law_level_comes_together(
    level: &Level,
    zones: &NameMap<Zone>,
    prefabs: &PrefabLib,
    r: Result<Vec<(String, Space)>, String>,
)
    requires
        level.zones.wf(),
        zones.wf(),
        prefabs.wf(),
        call_ensures(assemble, (level, zones, prefabs), r),
    ensures
        r is Ok <==> (exists|i: int|
            0 <= i < level.zones.entries@.len() && (#[trigger] level.zones.entries@[i]).0@
                == level.entry@) && (forall|i: int|
            0 <= i < level.zones.entries@.len() ==> can_stand(
                (#[trigger] level.zones.entries@[i]).0@,
                *zones,
                *prefabs,
            )),
        r matches Ok(v) ==> v@.len() == level.zones.entries@.len() && forall|i: int|
            0 <= i < v@.len() ==> {
                let (stem, entry) = level.zones.entries@[i];
                let space = (#[trigger] v@[i]).1;
                &&& v@[i].0@ == stem@
                &&& same_camera(entry.camera, scene_camera(space.camera))
                &&& space.place@ == entry.place@
                &&& space.bounds.min@ == entry.bounds.min@ && space.bounds.max@ == entry.bounds.max@
                &&& placed_from(space_instances(space), zones.lookup(stem@)->0, *prefabs)
            },
        r matches Err(e) ==> has_line(e@, level.entry@) || exists|i: int|
            0 <= i < level.zones.entries@.len() && !can_stand(
                (#[trigger] level.zones.entries@[i]).0@,
                *zones,
                *prefabs,
            ) && has_line(e@, level.zones.entries@[i].0@) && forall|j: int|
                0 <= j < i ==> can_stand((#[trigger] level.zones.entries@[j]).0@, *zones, *prefabs),
{
    let n = level.zones.entries@.len();
    lemma_assembled(*level, *zones, *prefabs, n);
    let names = level.zones.names();
    if names.contains(level.entry@) {
        let i = choose|i: int| 0 <= i < names.len() && names[i] == level.entry@;
        assert(level.zones.entries@[i].0@ == level.entry@);
    } else {
        let all = "manifest `entry` is `"@ + level.entry@ + "`, which is not one of the zones"@;
        assert(has_line(all, level.entry@));
        assert forall|i: int| 0 <= i < n implies (#[trigger] level.zones.entries@[i]).0@
            != level.entry@ by {
            assert(names[i] == level.zones.entries@[i].0@);
        }
    }
    if let Ok(v) = r {
        let views = space_views(v@);
        assert(assembled(*level, *zones, *prefabs) == Ok::<_, Seq<char>>(views));
        assert forall|i: int| 0 <= i < v@.len() implies {
            let (stem, entry) = level.zones.entries@[i];
            let space = (#[trigger] v@[i]).1;
            &&& v@[i].0@ == stem@
            &&& same_camera(entry.camera, scene_camera(space.camera))
            &&& space.place@ == entry.place@
            &&& space.bounds.min@ == entry.bounds.min@ && space.bounds.max@ == entry.bounds.max@
            &&& placed_from(space_instances(space), zones.lookup(stem@)->0, *prefabs)
        } by {
            let (stem, entry) = level.zones.entries@[i];
            let space = v@[i].1;
            assert(views[i].0 == v@[i].0@ && views[i].1 == space@);
            lemma_zone_space(stem@, entry, *zones, *prefabs);
            let a = bounds_view(space.bounds);
            let b = bounds_view(entry.bounds);
            assert(a[0] == b[0] && a[1] == b[1] && a[2] == b[2] && a[3] == b[3]);
            assert(space.bounds.min@ =~= entry.bounds.min@);
            assert(space.bounds.max@ =~= entry.bounds.max@);
        }
    }
    if let Err(e) = r {
        assert(assembled(*level, *zones, *prefabs) == Err::<
            Seq<(Seq<char>, crate::bake::levels::SpaceView)>,
            Seq<char>,
        >(e@));
    }
}

/// A zone is warned of exactly where the map has another and the zone leads nowhere; the
/// one warning names it.
pub proof fn law_isolated_zones_are_warned_of(
    conns: &NameMap<Vec<Connection>>,
    r: NameMap<Vec<String>>,
    k: int,
)
    requires
        conns.wf(),
        0 <= k < conns.entries@.len(),
        call_ensures(isolation_warnings, (conns,), r),
    ensures
        r.lookup(conns.entries@[k].0@) is Some <==> conns.entries@.len() > 1
            && conns.entries@[k].1@.len() == 0,
        r.lookup(conns.entries@[k].0@) matches Some(w) ==> w@.len() == 1 && has_line(
            w@[0]@,
            conns.entries@[k].0@,
        ),
{
    let name = conns.entries@[k].0@;
    lemma_index(conns.names(), k);
    assert(conns.names()[k] == name);
    assert(conns.lookup(name) == Some(conns.entries@[k].1));
    assert(r.lookup(name) is Some <==> isolated(*conns, name));
    if let Some(w) = r.lookup(name) {
        assert(texts(w@) == seq![isolation_text(name)]);
        assert(texts(w@)[0] == w@[0]@);
    }
}

/// A baked zone is the encoding of its own space with the connections that the map has
/// under its name, and is warned of where it is isolated among others.
pub proof fn law_baked_zone_has_its_own_connections(
    dirs: &LevelDirs,
    zones: &Vec<(String, Space)>,
    conns: &NameMap<Vec<Connection>>,
    baked: Vec<BakedZone>,
    i: int,
    k: int,
    own: &[Connection],
    blob: Vec<u8>,
)
    requires
        conns.wf(),
        call_ensures(bake_zones, (dirs, zones, conns), baked),
        0 <= i < zones@.len(),
        0 <= k < conns.entries@.len(),
        conns.entries@[k].0@ == zones@[i].0@,
        own@ == conns.entries@[k].1@,
        call_ensures(encode, (&zones@[i].1, own), blob),
    ensures
        baked@[i].blob@ == blob@,
        baked@[i].built.warnings@.len() == if conns.entries@.len() > 1 && own@.len() == 0 {
            1nat
        } else {
            0nat
        },
{
    lemma_index(conns.names(), k);
    assert(conns.names()[k] == zones@[i].0@);
    assert(baked_zone(*dirs, zones@[i].0@, zones@[i].1, *conns, baked@[i]));
    assert(texts(baked@[i].built.warnings@).len() == baked@[i].built.warnings@.len());
}

/// Comparing floats by their bits: numbers without a sign are ordered by their bits,
/// those with one the other way round and below the others, the two zeros are alike, and
/// what is no number is at least nothing.
pub proof fn law_floats_compare_by_sign_and_bits(a: F32Bits, b: F32Bits, r: bool)
    requires
        call_ensures(F32Bits::ge, (a, b), r),
    ensures
        a.0 <= 0x7f80_0000 && b.0 <= 0x7f80_0000 ==> r == (a.0 >= b.0),
        0x8000_0000 <= a.0 <= 0xff80_0000 && 0x8000_0000 <= b.0 <= 0xff80_0000 ==> r == (a.0
            <= b.0),
        a.0 <= 0x7f80_0000 && 0x8000_0000 <= b.0 <= 0xff80_0000 ==> r,
        0x8000_0000 <= a.0 <= 0xff80_0000 && b.0 <= 0x7f80_0000 ==> r == (a.0 == 0x8000_0000
            && b.0 == 0),
        (0x7f80_0000 < a.0 < 0x8000_0000 || a.0 > 0xff80_0000 || 0x7f80_0000 < b.0 < 0x8000_0000
            || b.0 > 0xff80_0000) ==> !r,
{
}

} // verus!
