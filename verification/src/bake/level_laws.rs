//! What holds of baked levels as a whole: of placed prefabs, of the connections that are derived for
//! a map, and between baking a tree of levels and predicting its constants from the
//! file names alone.

use crate::bake::const_tree::{const_line, lemma_insert_sorted, texts};
use crate::bake::files::{last_dot, lemma_last_dot, stem_of};
use crate::bake::levels::{
    bake_zones, baked_zone, built_names, derive_connections, edge_of, emit_rust_consts,
    is_zone_file, last_of_name, law_connection_deltas_oppose, law_connections_are_meetings,
    law_connections_are_mutual, leads, level_names, levels_source, lists_connections, names_differ,
    opposite, predict_consts, predicted, resolve_placement, resolved, sorted_names, zone_conns,
    zone_files, zone_lines, zone_path, BakedZone, Built, LevelDirs, LevelListing, Meeting,
    Placement, PrefabLib, BANNER,
};
use crate::bake::names::{
    guard_digit, lemma_lex_irreflexive, lemma_lex_transitive, lex_less, lower_name, strictly_sorted,
    upper_name,
};
use crate::bake::scene2bin::{conn_views, Connection, Instance, Material, Space, MANIFEST_NAME};
use crate::float::F32Bits;
use crate::name_map::{lemma_index, NameMap};
use crate::scene::asset::InstanceView;
use crate::scene::wire::points_of;
use crate::scene::zone::ConnView;
use vstd::prelude::*;

verus! {

/// Two paths visit the same points.
pub open spec fn same_path(a: Seq<[F32Bits; 2]>, b: Seq<[F32Bits; 2]>) -> bool {
    &&& a.len() == b.len()
    &&& forall|k: int|
        0 <= k < a.len() ==> (#[trigger] a[k])@[0] == b[k]@[0] && a[k]@[1] == b[k]@[1]
}

/// Two optional names are the same.
pub open spec fn same_name(a: Option<String>, b: Option<String>) -> bool {
    match (a, b) {
        (Some(x), Some(y)) => x@ == y@,
        (None, None) => true,
        _ => false,
    }
}

/// Two optional materials have the same colours.
pub open spec fn same_material(a: Option<Material>, b: Option<Material>) -> bool {
    match (a, b) {
        (Some(x), Some(y)) => x.diffuse@ == y.diffuse@ && x.ambient@ == y.ambient@,
        (None, None) => true,
        _ => false,
    }
}

/// Placing a prefab gives an instance of it: mesh and role are the prefab's, the
/// position is the placement's, and each override that the placement gives stands in
/// the instance; the prefab's own value stands where none is given.
pub proof fn law_use_takes_its_overrides(
    p: &Placement,
    prefabs: &PrefabLib,
    k: int,
    r: Result<Instance, String>,
)
    requires
        prefabs.wf(),
        0 <= k < prefabs.entries@.len(),
        p matches Placement::Use { name, .. } && name@ == prefabs.entries@[k].0@,
        call_ensures(resolve_placement, (p, prefabs), r),
    ensures
        r is Ok,
        r matches Ok(i) ==> p matches Placement::Use {
            name,
            pos,
            rot,
            scale,
            material,
            flags,
            path,
        } ==> {
            let pf = prefabs.entries@[k].1;
            &&& same_name(i.mesh, pf.mesh)
            &&& i.role@ == pf.role@
            &&& i.pos@ == pos@
            &&& rot matches Some(v) ==> i.rot@ == v@
            &&& rot is None ==> i.rot@ == pf.rot@
            &&& scale matches Some(v) ==> i.scale@ == v@
            &&& scale is None ==> i.scale@ == pf.scale@
            &&& material is Some ==> same_material(i.material, *material)
            &&& material is None ==> same_material(i.material, pf.material)
            &&& flags matches Some(v) ==> i.flags == v
            &&& flags is None ==> i.flags == pf.flags
            &&& path@.len() > 0 ==> same_path(i.path@, path@)
            &&& path@.len() == 0 ==> same_path(i.path@, pf.path@)
        },
{
    let name = p->Use_name;
    let pf = prefabs.entries@[k].1;
    lemma_index(prefabs.names(), k);
    assert(prefabs.names()[k] == name@);
    assert(prefabs.lookup(name@) == Some(pf));
    if let Ok(i) = r {
        assert(resolved(*p, *prefabs) == Ok::<InstanceView, Seq<char>>(i@));
        let path = p->Use_path;
        if path@.len() > 0 {
            lemma_same_path(i.path@, path@);
        } else {
            lemma_same_path(i.path@, pf.path@);
        }
    }
}

/// A literal placement gives the instance it spells out.
pub proof fn law_literal_passes_through(
    p: &Placement,
    prefabs: &PrefabLib,
    r: Result<Instance, String>,
)
    requires
        prefabs.wf(),
        p is Lit,
        call_ensures(resolve_placement, (p, prefabs), r),
    ensures
        r is Ok,
        r matches Ok(i) ==> p matches Placement::Lit(x) ==> {
            &&& same_name(i.mesh, x.mesh)
            &&& i.role@ == x.role@
            &&& i.pos@ == x.pos@ && i.rot@ == x.rot@ && i.scale@ == x.scale@
            &&& same_material(i.material, x.material)
            &&& i.flags == x.flags
            &&& same_path(i.path@, x.path@)
        },
{
    if let Ok(i) = r {
        assert(resolved(*p, *prefabs) == Ok::<InstanceView, Seq<char>>(i@));
        lemma_same_path(i.path@, p->Lit_0.path@);
    }
}

/// A placement of a prefab that the library does not have is refused, and the
/// refusal names the prefab.
pub proof fn law_unknown_prefab_is_named(
    p: &Placement,
    prefabs: &PrefabLib,
    r: Result<Instance, String>,
)
    requires
        prefabs.wf(),
        p matches Placement::Use { name, .. } && forall|k: int|
            0 <= k < prefabs.entries@.len() ==> (#[trigger] prefabs.entries@[k]).0@ != name@,
        call_ensures(resolve_placement, (p, prefabs), r),
    ensures
        r matches Err(e) && has_line(e@, p->Use_name@),
{
    let name = p->Use_name;
    if prefabs.names().contains(name@) {
        let k = choose|k: int| 0 <= k < prefabs.names().len() && prefabs.names()[k] == name@;
        assert(prefabs.entries@[k].0@ == name@);
    }
    if let Ok(i) = r {
        assert(resolved(*p, *prefabs) == Ok::<InstanceView, Seq<char>>(i@));
    }
    if let Err(e) = r {
        assert(resolved(*p, *prefabs) == Err::<InstanceView, Seq<char>>(e@));
        assert(e@ == "unknown prefab `"@ + name@ + "`"@);
    }
}

proof fn lemma_same_path(a: Seq<[F32Bits; 2]>, b: Seq<[F32Bits; 2]>)
    requires
        points_of(a) == points_of(b),
    ensures
        same_path(a, b),
{
    assert(points_of(a).len() == a.len() && points_of(b).len() == b.len());
    assert forall|k: int| 0 <= k < a.len() implies (#[trigger] a[k])@[0] == b[k]@[0] && a[k]@[1]
        == b[k]@[1] by {
        assert(points_of(a)[k] == points_of(b)[k]);
    }
}

/// The connections that a map of connections holds for a zone.
pub open spec fn conns_of(map: NameMap<Vec<Connection>>, name: Seq<char>) -> Seq<ConnView> {
    conn_views(map.lookup(name)->0@)
}

/// Two zones see each other across opposite sides, and their frames differ by
/// opposing deltas.
pub open spec fn meet_alike(there: Meeting, back: Meeting) -> bool {
    &&& forall|side: u8|
        side < 4 ==> (#[trigger] edge_of(there, side) is Some <==> edge_of(
            back,
            opposite(side),
        ) is Some)
    &&& there.delta@[0].opposes(back.delta@[0])
    &&& there.delta@[1].opposes(back.delta@[1])
}

/// The list that is derived for a zone.
proof fn lemma_derived(
    names: &Vec<String>,
    meetings: &Vec<Vec<Meeting>>,
    map: NameMap<Vec<Connection>>,
    i: int,
)
    requires
        names_differ(names@),
        0 <= i < names@.len(),
        meetings@.len() == names@.len(),
        forall|k: int| 0 <= k < names@.len() ==> (#[trigger] meetings@[k])@.len() == names@.len(),
        call_ensures(derive_connections, (names, meetings), map),
    ensures
        map.lookup(names@[i]@) is Some,
        conns_of(map, names@[i]@) == zone_conns(names@, meetings@[i]@, i, names@.len()),
{
    assert(lists_connections(names@, meetings@, map));
    assert(last_of_name(names@, i));
    assert(conn_views(map.lookup(names@[i]@)->0@) == zone_conns(
        names@,
        meetings@[i]@,
        i,
        names@.len(),
    ));
}

/// In a map of zones with different names every zone has its list, no connection
/// leads back to the zone it is of, and connections are mutual: one leads from a zone
/// over a side exactly if one leads back over the opposite side, with a delta that
/// undoes the first.
pub proof fn law_derived_connections_are_mutual(
    names: &Vec<String>,
    meetings: &Vec<Vec<Meeting>>,
    map: NameMap<Vec<Connection>>,
    i: int,
    j: int,
)
    requires
        names_differ(names@),
        0 <= i < names@.len(),
        0 <= j < names@.len(),
        i != j,
        meetings@.len() == names@.len(),
        forall|k: int| 0 <= k < names@.len() ==> (#[trigger] meetings@[k])@.len() == names@.len(),
        meet_alike(meetings@[i]@[j], meetings@[j]@[i]),
        call_ensures(derive_connections, (names, meetings), map),
    ensures
        map.lookup(names@[i]@) is Some,
        forall|c: ConnView| #[trigger]
            conns_of(map, names@[i]@).contains(c) ==> c.neighbour != names@[i]@,
        forall|side: u8|
            side < 4 ==> (#[trigger] leads(conns_of(map, names@[i]@), names@[j]@, side) <==> leads(
                conns_of(map, names@[j]@),
                names@[i]@,
                opposite(side),
            )),
        forall|c: ConnView, d: ConnView| #[trigger]
            conns_of(map, names@[i]@).contains(c) && #[trigger] conns_of(
                map,
                names@[j]@,
            ).contains(d) && c.neighbour == names@[j]@ && d.neighbour == names@[i]@
                ==> c.span[2].opposes(d.span[2]) && c.span[3].opposes(d.span[3]),
{
    let n = names@.len();
    let there = zone_conns(names@, meetings@[i]@, i, n);
    let back = zone_conns(names@, meetings@[j]@, j, n);
    lemma_derived(names, meetings, map, i);
    lemma_derived(names, meetings, map, j);
    law_connections_are_meetings(names@, meetings@[i]@, i, n, j, 0);
    assert forall|c: ConnView| #[trigger] there.contains(c) implies c.neighbour != names@[i]@ by {
        let k = choose|k: int| 0 <= k < there.len() && there[k] == c;
        assert(there[k].neighbour != names@[i]@);
    }
    assert forall|side: u8| side < 4 implies (#[trigger] leads(there, names@[j]@, side) <==> leads(
        back,
        names@[i]@,
        opposite(side),
    )) by {
        assert(edge_of(meetings@[i]@[j], side) is Some <==> edge_of(
            meetings@[j]@[i],
            opposite(side),
        ) is Some);
        law_connections_are_mutual(names@, meetings@, i, j, side);
    }
    assert forall|c: ConnView, d: ConnView| #[trigger] there.contains(c) && #[trigger] back.contains(d)
        && c.neighbour == names@[j]@ && d.neighbour == names@[i]@ implies c.span[2].opposes(
        d.span[2],
    ) && c.span[3].opposes(d.span[3]) by {
        law_connection_deltas_oppose(names@, meetings@, i, j, c, d, 0);
        law_connection_deltas_oppose(names@, meetings@, i, j, c, d, 1);
    }
}

/// The name of a zone's content file.
pub open spec fn zone_file(stem: Seq<char>) -> Seq<char> {
    stem + ".ron"@
}

/// What baking a level reports of each zone.
pub open spec fn reports(v: Seq<BakedZone>) -> Seq<Built> {
    Seq::new(v.len(), |i: int| v[i].built)
}

/// What baking level after level reports.
pub open spec fn all_reports(v: Seq<Seq<BakedZone>>) -> Seq<Built>
    decreases v.len(),
{
    if v.len() == 0 {
        Seq::empty()
    } else {
        all_reports(v.drop_last()) + reports(v.last())
    }
}

/// The directory of a level holds a content file for exactly the zones that were
/// baked; nothing was baked from a directory without a manifest.
pub open spec fn holds_baked(l: LevelListing, baked: Seq<BakedZone>) -> bool {
    if texts(l.files@).contains(MANIFEST_NAME@) {
        &&& forall|k: int|
            0 <= k < baked.len() ==> (#[trigger] baked[k]).built.level@ == l.name@ && is_zone_file(
                zone_file(baked[k].built.stem@),
            ) && texts(l.files@).contains(zone_file(baked[k].built.stem@))
        &&& forall|f: Seq<char>| #[trigger]
            texts(l.files@).contains(f) && is_zone_file(f) ==> exists|k: int|
                0 <= k < baked.len() && f == zone_file((#[trigger] baked[k]).built.stem@)
    } else {
        baked.len() == 0
    }
}

/// The zones come in the order of their content files.
pub open spec fn in_file_order(baked: Seq<BakedZone>) -> bool {
    strictly_sorted(Seq::new(baked.len(), |k: int| zone_file(baked[k].built.stem@)))
}

/// The module, the name and the path of a zone's constant.
pub open spec fn constant_of(z: (Seq<char>, Seq<char>)) -> (Seq<char>, Seq<char>, Seq<char>) {
    (guard_digit(lower_name(z.0)), guard_digit(upper_name(z.1)), zone_path(z.0, z.1))
}

/// The constants that are declared for a list of zones.
pub open spec fn declared(v: Seq<(Seq<char>, Seq<char>)>) -> Set<
    (Seq<char>, Seq<char>, Seq<char>),
> {
    Set::new(|c: (Seq<char>, Seq<char>, Seq<char>)| exists|i: int|
        0 <= i < v.len() && c == constant_of(#[trigger] v[i]))
}

/// A content file's name without its extension is the zone's.
proof fn lemma_zone_file(stem: Seq<char>)
    requires
        is_zone_file(zone_file(stem)),
    ensures
        stem_of(zone_file(stem)) == stem,
{
    reveal_strlit(".ron");
    let f = zone_file(stem);
    lemma_last_dot(f);
    let n = stem.len() as int;
    assert(f[n] == '.' && f[n + 1] == 'r' && f[n + 2] == 'o' && f[n + 3] == 'n');
    assert(last_dot(f) == n);
    assert(f.take(n) =~= stem);
}

/// Sorting keeps the names, without repetition.
proof fn lemma_sorted_names(v: Seq<Seq<char>>)
    ensures
        strictly_sorted(sorted_names(v)),
        forall|x: Seq<char>| #[trigger] sorted_names(v).contains(x) <==> v.contains(x),
    decreases v.len(),
{
    if v.len() > 0 {
        let init = v.drop_last();
        lemma_sorted_names(init);
        lemma_insert_sorted(sorted_names(init), v.last());
        assert forall|x: Seq<char>| #[trigger] sorted_names(v).contains(x) <==> v.contains(x) by {
            if v.contains(x) {
                let k = choose|k: int| 0 <= k < v.len() && v[k] == x;
                if k < init.len() {
                    assert(init[k] == x);
                    assert(init.contains(x));
                    assert(sorted_names(init).contains(x));
                }
            }
            if sorted_names(v).contains(x) && x != v.last() {
                assert(sorted_names(init).contains(x));
                let k = choose|k: int| 0 <= k < init.len() && init[k] == x;
                assert(v[k] == x);
            }
            if x == v.last() {
                assert(v[v.len() - 1] == x);
            }
        }
    }
}

/// The content files of zones, in order.
spec fn content_files(files: Seq<Seq<char>>) -> Seq<Seq<char>>
    decreases files.len(),
{
    if files.len() == 0 {
        Seq::empty()
    } else if is_zone_file(files.last()) {
        content_files(files.drop_last()).push(files.last())
    } else {
        content_files(files.drop_last())
    }
}

proof fn lemma_content_files(level: Seq<char>, files: Seq<Seq<char>>)
    requires
        strictly_sorted(files),
    ensures
        strictly_sorted(content_files(files)),
        forall|f: Seq<char>| #[trigger]
            content_files(files).contains(f) <==> files.contains(f) && is_zone_file(f),
        zone_files(level, files) == content_files(files).map_values(
            |f: Seq<char>| (level, stem_of(f)),
        ),
    decreases files.len(),
{
    let named = |f: Seq<char>| (level, stem_of(f));
    if files.len() == 0 {
        assert(zone_files(level, files) =~= content_files(files).map_values(named));
    } else {
        let init = files.drop_last();
        let last = files.last();
        let rest = content_files(init);
        let all = content_files(files);
        assert forall|i: int, j: int| 0 <= i < j < init.len() implies lex_less(init[i], init[j]) by {
            assert(lex_less(files[i], files[j]));
        }
        lemma_content_files(level, init);
        assert forall|f: Seq<char>| #[trigger] all.contains(f) <==> files.contains(f)
            && is_zone_file(f) by {
            if all.contains(f) {
                let k = choose|k: int| 0 <= k < all.len() && all[k] == f;
                if k < rest.len() {
                    assert(rest[k] == f);
                    assert(rest.contains(f));
                    let m = choose|m: int| 0 <= m < init.len() && init[m] == f;
                    assert(files[m] == f);
                } else {
                    assert(files[files.len() - 1] == f);
                }
            }
            if files.contains(f) && is_zone_file(f) {
                let k = choose|k: int| 0 <= k < files.len() && files[k] == f;
                if k < init.len() {
                    assert(init[k] == f);
                    assert(rest.contains(f));
                    let m = choose|m: int| 0 <= m < rest.len() && rest[m] == f;
                    assert(all[m] == f);
                } else {
                    assert(all[all.len() - 1] == f);
                }
            }
        }
        assert forall|i: int, j: int| 0 <= i < j < all.len() implies lex_less(all[i], all[j]) by {
            if j < rest.len() {
                assert(lex_less(rest[i], rest[j]));
            } else {
                assert(rest.contains(rest[i]));
                let m = choose|m: int| 0 <= m < init.len() && init[m] == rest[i];
                assert(lex_less(files[m], files[files.len() - 1]));
            }
        }
        assert(zone_files(level, files) =~= all.map_values(named));
    }
}

/// Two lists in strictly increasing order with the same members are one list.
proof fn lemma_sorted_is_unique(a: Seq<Seq<char>>, b: Seq<Seq<char>>)
    requires
        strictly_sorted(a),
        strictly_sorted(b),
        forall|x: Seq<char>| #[trigger] a.contains(x) <==> b.contains(x),
    ensures
        a == b,
    decreases a.len(),
{
    if a.len() == 0 || b.len() == 0 {
        if b.len() > 0 {
            assert(b.contains(b[0]));
            assert(a.contains(b[0]));
        }
        if a.len() > 0 {
            assert(a.contains(a[0]));
        }
        assert(a =~= b);
    } else {
        let x = a.last();
        let y = b.last();
        assert(a.contains(a[a.len() - 1]));
        assert(b.contains(b[b.len() - 1]));
        assert(a.contains(y) && b.contains(x));
        if x != y {
            let i = choose|i: int| 0 <= i < a.len() && a[i] == y;
            let j = choose|j: int| 0 <= j < b.len() && b[j] == x;
            assert(lex_less(a[i], a[a.len() - 1]));
            assert(lex_less(b[j], b[b.len() - 1]));
            lemma_lex_transitive(x, y, x);
            lemma_lex_irreflexive(x);
        }
        let p = a.drop_last();
        let q = b.drop_last();
        lemma_drop_last_sorted(a);
        lemma_drop_last_sorted(b);
        assert forall|z: Seq<char>| #[trigger] p.contains(z) <==> q.contains(z) by {
            assert(a.contains(z) <==> b.contains(z));
        }
        lemma_sorted_is_unique(p, q);
        assert(a =~= p.push(x));
        assert(b =~= q.push(y));
    }
}

/// Without its last name a sorted list is sorted and holds the others.
proof fn lemma_drop_last_sorted(a: Seq<Seq<char>>)
    requires
        strictly_sorted(a),
        a.len() > 0,
    ensures
        strictly_sorted(a.drop_last()),
        forall|z: Seq<char>| #[trigger]
            a.drop_last().contains(z) <==> a.contains(z) && z != a.last(),
{
    let p = a.drop_last();
    assert forall|i: int, j: int| 0 <= i < j < p.len() implies lex_less(p[i], p[j]) by {
        assert(lex_less(a[i], a[j]));
    }
    assert forall|z: Seq<char>| #[trigger] p.contains(z) <==> a.contains(z) && z != a.last() by {
        if p.contains(z) {
            let k = choose|k: int| 0 <= k < p.len() && p[k] == z;
            assert(a[k] == z);
            assert(lex_less(a[k], a[a.len() - 1]));
            lemma_lex_irreflexive(z);
        }
        if a.contains(z) && z != a.last() {
            let k = choose|k: int| 0 <= k < a.len() && a[k] == z;
            assert(p[k] == z);
        }
    }
}

/// The zones predicted for one level are those that were baked.
proof fn lemma_level_is_predicted(l: LevelListing, baked: Seq<BakedZone>)
    requires
        holds_baked(l, baked),
        texts(l.files@).contains(MANIFEST_NAME@),
    ensures
        forall|z: (Seq<char>, Seq<char>)| #[trigger]
            zone_files(l.name@, sorted_names(texts(l.files@))).contains(z) <==> built_names(
                reports(baked),
            ).contains(z),
        in_file_order(baked) ==> zone_files(l.name@, sorted_names(texts(l.files@)))
            == built_names(reports(baked)),
{
    let files = texts(l.files@);
    let sorted = sorted_names(files);
    let content = content_files(sorted);
    let found = zone_files(l.name@, sorted);
    let names = built_names(reports(baked));
    let order = Seq::new(baked.len(), |k: int| zone_file(baked[k].built.stem@));
    lemma_sorted_names(files);
    lemma_content_files(l.name@, sorted);
    assert forall|f: Seq<char>| #[trigger] content.contains(f) <==> order.contains(f) by {
        if content.contains(f) {
            assert(files.contains(f));
            let k = choose|k: int|
                0 <= k < baked.len() && f == zone_file((#[trigger] baked[k]).built.stem@);
            assert(order[k] == f);
        }
        if order.contains(f) {
            let k = choose|k: int| 0 <= k < order.len() && order[k] == f;
            assert(f == zone_file(baked[k].built.stem@));
            assert(files.contains(f));
            assert(sorted.contains(f));
        }
    }
    assert forall|z: (Seq<char>, Seq<char>)| #[trigger] found.contains(z) <==> names.contains(z) by {
        if found.contains(z) {
            let k = choose|k: int| 0 <= k < found.len() && found[k] == z;
            assert(content.contains(content[k]));
            assert(order.contains(content[k]));
            let m = choose|m: int| 0 <= m < order.len() && order[m] == content[k];
            assert(baked[m].built.level@ == l.name@);
            lemma_zone_file(baked[m].built.stem@);
            assert(names[m] == z);
        }
        if names.contains(z) {
            let m = choose|m: int| 0 <= m < names.len() && names[m] == z;
            assert(baked[m].built.level@ == l.name@);
            lemma_zone_file(baked[m].built.stem@);
            assert(order[m] == zone_file(z.1));
            assert(order.contains(order[m]));
            assert(content.contains(order[m]));
            let k = choose|k: int| 0 <= k < content.len() && content[k] == order[m];
            assert(found[k] == z);
        }
    }
    if in_file_order(baked) {
        lemma_sorted_is_unique(content, order);
        assert forall|k: int| 0 <= k < names.len() implies found[k] == names[k] by {
            assert(baked[k].built.level@ == l.name@);
            lemma_zone_file(baked[k].built.stem@);
        }
        assert(found =~= names);
    }
}

/// Zones in the order of their content files in every level.
pub open spec fn all_in_file_order(baked: Seq<Seq<BakedZone>>) -> bool {
    forall|i: int| 0 <= i < baked.len() ==> in_file_order(#[trigger] baked[i])
}

/// Predicting the constants of a tree finds the zones that baking it reports. Where
/// the zones of each level come in the order of their files, it finds them in the
/// same order.
pub proof fn law_prediction_finds_the_baked_zones(
    levels: Seq<LevelListing>,
    baked: Seq<Seq<BakedZone>>,
)
    requires
        levels.len() == baked.len(),
        forall|i: int| 0 <= i < levels.len() ==> holds_baked(#[trigger] levels[i], baked[i]),
    ensures
        forall|z: (Seq<char>, Seq<char>)| #[trigger]
            predicted(levels).contains(z) <==> built_names(all_reports(baked)).contains(z),
        declared(predicted(levels)) == declared(built_names(all_reports(baked))),
        all_in_file_order(baked) ==> predicted(levels) == built_names(all_reports(baked)),
{
    lemma_predicted(levels, baked);
    lemma_same_zones_same_constants(predicted(levels), built_names(all_reports(baked)));
}

proof fn lemma_same_zones_same_constants(
    a: Seq<(Seq<char>, Seq<char>)>,
    b: Seq<(Seq<char>, Seq<char>)>,
)
    requires
        forall|z: (Seq<char>, Seq<char>)| #[trigger] a.contains(z) <==> b.contains(z),
    ensures
        declared(a) == declared(b),
{
    assert forall|c: (Seq<char>, Seq<char>, Seq<char>)| declared(a).contains(c) == declared(
        b,
    ).contains(c) by {
        if declared(a).contains(c) {
            let i = choose|i: int| 0 <= i < a.len() && c == constant_of(#[trigger] a[i]);
            assert(a.contains(a[i]));
            assert(b.contains(a[i]));
        }
        if declared(b).contains(c) {
            let i = choose|i: int| 0 <= i < b.len() && c == constant_of(#[trigger] b[i]);
            assert(b.contains(b[i]));
            assert(a.contains(b[i]));
        }
    }
    assert(declared(a) =~= declared(b));
}

proof fn lemma_predicted(levels: Seq<LevelListing>, baked: Seq<Seq<BakedZone>>)
    requires
        levels.len() == baked.len(),
        forall|i: int| 0 <= i < levels.len() ==> holds_baked(#[trigger] levels[i], baked[i]),
    ensures
        forall|z: (Seq<char>, Seq<char>)| #[trigger]
            predicted(levels).contains(z) <==> built_names(all_reports(baked)).contains(z),
        all_in_file_order(baked) ==> predicted(levels) == built_names(all_reports(baked)),
    decreases levels.len(),
{
    let all = built_names(all_reports(baked));
    if levels.len() == 0 {
        assert(all =~= predicted(levels));
    } else {
        let ls = levels.drop_last();
        let bs = baked.drop_last();
        let l = levels.last();
        let b = baked.last();
        assert forall|i: int| 0 <= i < ls.len() implies holds_baked(#[trigger] ls[i], bs[i]) by {
            assert(holds_baked(levels[i], baked[i]));
        }
        assert(holds_baked(levels[levels.len() - 1], baked[levels.len() - 1]));
        lemma_predicted(ls, bs);
        let rest = built_names(all_reports(bs));
        let own = built_names(reports(b));
        assert(all =~= rest + own);
        if all_in_file_order(baked) {
            assert forall|i: int| 0 <= i < bs.len() implies in_file_order(#[trigger] bs[i]) by {
                assert(in_file_order(baked[i]));
            }
            assert(in_file_order(baked[baked.len() - 1]));
        }
        if texts(l.files@).contains(MANIFEST_NAME@) {
            lemma_level_is_predicted(l, b);
            let found = zone_files(l.name@, sorted_names(texts(l.files@)));
            assert forall|z: (Seq<char>, Seq<char>)| #[trigger] predicted(levels).contains(z)
                <==> all.contains(z) by {
                lemma_contains_either(predicted(ls), found, z);
                lemma_contains_either(rest, own, z);
                assert(predicted(ls).contains(z) <==> rest.contains(z));
                assert(found.contains(z) <==> own.contains(z));
            }
        } else {
            assert(all =~= rest);
            assert(predicted(levels) == predicted(ls));
            assert forall|z: (Seq<char>, Seq<char>)| #[trigger] predicted(levels).contains(z)
                <==> all.contains(z) by {
                assert(predicted(ls).contains(z) <==> rest.contains(z));
            }
        }
    }
}

/// A concatenation holds what its parts hold.
proof fn lemma_contains_either<T>(a: Seq<T>, b: Seq<T>, z: T)
    ensures
        (a + b).contains(z) <==> a.contains(z) || b.contains(z),
{
    if a.contains(z) {
        let k = choose|k: int| 0 <= k < a.len() && a[k] == z;
        assert((a + b)[k] == z);
    }
    if b.contains(z) {
        let k = choose|k: int| 0 <= k < b.len() && b[k] == z;
        assert((a + b)[a.len() + k] == z);
    }
    if (a + b).contains(z) {
        let k = choose|k: int| 0 <= k < (a + b).len() && (a + b)[k] == z;
        if k < a.len() {
            assert(a[k] == z);
        } else {
            assert(b[k - a.len()] == z);
        }
    }
}

/// What [`bake_zones`] reports of a level whose directory holds a content file for
/// exactly the zones of its manifest, the directory holds; and the reports keep the
/// order of the zones.
pub proof fn law_baked_zones_stand_in_their_directory(
    l: LevelListing,
    dirs: &LevelDirs,
    zones: &Vec<(String, Space)>,
    conns: &NameMap<Vec<Connection>>,
    baked: Vec<BakedZone>,
)
    requires
        texts(l.files@).contains(MANIFEST_NAME@),
        dirs.name@ == l.name@,
        forall|f: Seq<char>|
            (#[trigger] texts(l.files@).contains(f) && is_zone_file(f)) <==> exists|k: int|
                0 <= k < zones@.len() && f == zone_file((#[trigger] zones@[k]).0@),
        call_ensures(bake_zones, (dirs, zones, conns), baked),
    ensures
        holds_baked(l, baked@),
        baked@.len() == zones@.len(),
        forall|k: int|
            0 <= k < baked@.len() ==> (#[trigger] baked@[k]).built.stem@ == zones@[k].0@,
{
    assert forall|k: int| 0 <= k < baked@.len() implies baked_zone(
        *dirs,
        zones@[k].0@,
        zones@[k].1,
        *conns,
        #[trigger] baked@[k],
    ) by {
    }
    assert forall|k: int| 0 <= k < baked@.len() implies (#[trigger] baked@[k]).built.level@
        == l.name@ && is_zone_file(zone_file(baked@[k].built.stem@)) && texts(l.files@).contains(
        zone_file(baked@[k].built.stem@),
    ) by {
        let f = zone_file(zones@[k].0@);
        assert(baked_zone(*dirs, zones@[k].0@, zones@[k].1, *conns, baked@[k]));
        assert(texts(l.files@).contains(f) && is_zone_file(f));
    }
    assert forall|f: Seq<char>| #[trigger]
        texts(l.files@).contains(f) && is_zone_file(f) implies exists|k: int|
        0 <= k < baked@.len() && f == zone_file((#[trigger] baked@[k]).built.stem@) by {
        let k = choose|k: int| 0 <= k < zones@.len() && f == zone_file((#[trigger] zones@[k]).0@);
        assert(baked_zone(*dirs, zones@[k].0@, zones@[k].1, *conns, baked@[k]));
        assert(f == zone_file(baked@[k].built.stem@));
    }
}

/// Where a tree's prediction finds the zones that were baked, in their order, the
/// predicted source is the source that baking gives.
pub proof fn law_same_zones_give_the_same_source(
    levels: &[LevelListing],
    built: &[Built],
    guess: String,
    source: String,
)
    requires
        predicted(levels@) == built_names(built@),
        call_ensures(predict_consts, (levels,), guess),
        call_ensures(emit_rust_consts, (built,), source),
    ensures
        guess@ == source@,
{
}

/// A root without levels predicts the source of a bake without zones.
pub proof fn law_empty_tree_predicts_empty_source(
    levels: &[LevelListing],
    built: &[Built],
    guess: String,
    source: String,
)
    requires
        levels@.len() == 0,
        built@.len() == 0,
        call_ensures(predict_consts, (levels,), guess),
        call_ensures(emit_rust_consts, (built,), source),
    ensures
        guess@ == source@,
        guess@ == BANNER@,
{
    assert(predicted(levels@) =~= built_names(built@));
    assert(levels_source(predicted(levels@), level_names(predicted(levels@))) =~= Seq::empty());
}

/// The source has a module of this name with these lines.
pub open spec fn has_module(source: Seq<char>, module: Seq<char>, lines: Seq<char>) -> bool {
    exists|pre: Seq<char>, post: Seq<char>|
        source == #[trigger] (pre + ("pub mod "@ + module + " {\n"@ + lines + "}\n"@) + post)
}

/// Lines among others.
pub open spec fn has_line(lines: Seq<char>, line: Seq<char>) -> bool {
    exists|pre: Seq<char>, post: Seq<char>| lines == #[trigger] (pre + line + post)
}

/// Every zone is declared: its level has a module, and in it stands the constant
/// with the path of the zone's blob.
pub proof fn law_every_zone_is_declared(v: Seq<(Seq<char>, Seq<char>)>, i: int)
    requires
        0 <= i < v.len(),
    ensures
        ({
            let source = BANNER@ + levels_source(v, level_names(v));
            let (module, name, path) = constant_of(v[i]);
            &&& has_module(source, module, zone_lines(v, v[i].0))
            &&& has_line(zone_lines(v, v[i].0), const_line(1, name, path))
        }),
{
    let names = level_names(v);
    lemma_level_names(v, i);
    let k = choose|k: int| 0 <= k < names.len() && names[k] == v[i].0;
    lemma_level_has_module(v, names, k);
    lemma_zone_has_line(v, i);
    let all = levels_source(v, names);
    let block = "pub mod "@ + guard_digit(lower_name(v[i].0)) + " {\n"@ + zone_lines(v, v[i].0)
        + "}\n"@;
    let (pre, post) = choose|pre: Seq<char>, post: Seq<char>|
        all == #[trigger] (pre + block + post);
    assert(BANNER@ + all =~= (BANNER@ + pre) + block + post);
}

proof fn lemma_level_names(v: Seq<(Seq<char>, Seq<char>)>, i: int)
    requires
        0 <= i < v.len(),
    ensures
        level_names(v).contains(v[i].0),
    decreases v.len(),
{
    lemma_level_names_sorted(v.drop_last());
    lemma_insert_sorted(level_names(v.drop_last()), v.last().0);
    if i < v.len() - 1 {
        lemma_level_names(v.drop_last(), i);
    }
}

proof fn lemma_level_names_sorted(v: Seq<(Seq<char>, Seq<char>)>)
    ensures
        strictly_sorted(level_names(v)),
    decreases v.len(),
{
    if v.len() > 0 {
        lemma_level_names_sorted(v.drop_last());
        lemma_insert_sorted(level_names(v.drop_last()), v.last().0);
    }
}

proof fn lemma_level_has_module(v: Seq<(Seq<char>, Seq<char>)>, names: Seq<Seq<char>>, k: int)
    requires
        0 <= k < names.len(),
    ensures
        has_module(
            levels_source(v, names),
            guard_digit(lower_name(names[k])),
            zone_lines(v, names[k]),
        ),
    decreases names.len(),
{
    let all = levels_source(v, names);
    let init = levels_source(v, names.drop_last());
    let last = names.last();
    let own = "pub mod "@ + guard_digit(lower_name(last)) + " {\n"@ + zone_lines(v, last) + "}\n"@;
    assert(all =~= init + own);
    if k == names.len() - 1 {
        assert(all =~= init + own + Seq::empty());
    } else {
        lemma_level_has_module(v, names.drop_last(), k);
        let block = "pub mod "@ + guard_digit(lower_name(names[k])) + " {\n"@ + zone_lines(
            v,
            names[k],
        ) + "}\n"@;
        let (pre, post) = choose|pre: Seq<char>, post: Seq<char>|
            init == #[trigger] (pre + block + post);
        assert(all =~= pre + block + (post + own));
    }
}

proof fn lemma_zone_has_line(v: Seq<(Seq<char>, Seq<char>)>, i: int)
    requires
        0 <= i < v.len(),
    ensures
        has_line(
            zone_lines(v, v[i].0),
            const_line(1, guard_digit(upper_name(v[i].1)), zone_path(v[i].0, v[i].1)),
        ),
    decreases v.len(),
{
    let level = v[i].0;
    let line = const_line(1, guard_digit(upper_name(v[i].1)), zone_path(level, v[i].1));
    let all = zone_lines(v, level);
    let init = zone_lines(v.drop_last(), level);
    if i == v.len() - 1 {
        assert(all =~= init + line + Seq::empty());
    } else {
        lemma_zone_has_line(v.drop_last(), i);
        let (pre, post) = choose|pre: Seq<char>, post: Seq<char>|
            init == #[trigger] (pre + line + post);
        let z = v.last();
        let own = if z.0 == level {
            const_line(1, guard_digit(upper_name(z.1)), zone_path(level, z.1))
        } else {
            Seq::empty()
        };
        assert(all =~= pre + line + (post + own));
    }
}

} // verus!
