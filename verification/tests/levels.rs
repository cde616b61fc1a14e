use bevy_nds::bake::levels::{
    assemble, bake_zones, const_name, derive_connections, emit_rust_consts, first_invalid, isolation_warnings,
    predict_consts, resolve_placement, validate, Built, Level, LevelDirs, LevelListing, Meeting, Placement, Prefab,
    PrefabLib, Zone, ZoneEntry,
};
use bevy_nds::bake::scene2bin::{
    encode, Bounds, Camera, Connection, Instance, Material, Space, SIDE_EAST, SIDE_WEST, VERSION,
};
use bevy_nds::float::F32Bits;
use bevy_nds::name_map::NameMap;
use bevy_nds::scene::asset::{
    parse as parse_scene, CameraMode, SceneBoundsData, SceneConnData,
};

fn b(v: f32) -> F32Bits {
    F32Bits(v.to_bits())
}

fn f(v: F32Bits) -> f32 {
    f32::from_bits(v.0)
}

fn b2(v: [f32; 2]) -> [F32Bits; 2] {
    [b(v[0]), b(v[1])]
}

fn b3(v: [f32; 3]) -> [F32Bits; 3] {
    [b(v[0]), b(v[1]), b(v[2])]
}

fn manifest() -> Level {
    let mut zones = NameMap::new();
    zones.insert(
        String::from("atrium"),
        ZoneEntry {
            place: b2([0.0, 0.0]),
            bounds: Bounds { min: b2([-2.0, -2.0]), max: b2([2.0, 2.0]) },
            camera: Camera::Follow { height: b(1.7), dist: b(2.0), pitch: b(-0.7) },
        },
    );
    zones.insert(
        String::from("corridor"),
        ZoneEntry {
            place: b2([4.2, 0.0]),
            bounds: Bounds { min: b2([-2.2, -0.55]), max: b2([2.2, 0.55]) },
            camera: Camera::Rail2_5D { height: b(1.4), dist: b(2.4), pitch: b(-0.35) },
        },
    );
    Level { name: String::from("Facility"), entry: String::from("atrium"), zones }
}

fn placed(name: &str, pos: [f32; 3], rot: Option<[f32; 3]>, path: Vec<[f32; 2]>) -> Placement {
    Placement::Use {
        name: name.to_string(),
        pos: b3(pos),
        rot: rot.map(b3),
        scale: None,
        material: None,
        flags: None,
        path: path.into_iter().map(b2).collect(),
    }
}

fn atrium_zone() -> Zone {
    Zone {
        instances: vec![
            Placement::Lit(Instance {
                mesh: Some(String::from("teapot")),
                role: String::from("avatar"),
                pos: b3([0.0; 3]),
                rot: b3([-1.5708, 0.0, 0.0]),
                scale: b3([0.11, 0.11, 0.11]),
                material: Some(Material { diffuse: [110, 180, 235], ambient: [26, 40, 58] }),
                flags: 0,
                path: vec![],
            }),
            placed("patroller", [-1.4, 0.0, 0.0], None, vec![[-1.4, 0.0], [1.4, 0.0]]),
            placed("landmark_block", [-1.25, 0.0, 0.95], None, vec![]),
            placed("landmark_block", [1.25, 0.0, -0.95], Some([0.0, 0.3, 0.0]), vec![]),
        ],
    }
}

fn prefab(role: &str, material: Material) -> Prefab {
    Prefab {
        mesh: Some(String::from("cube")),
        role: role.to_string(),
        rot: b3([0.0; 3]),
        scale: b3([0.16, 0.16, 0.16]),
        material: Some(material),
        flags: 0,
        path: vec![],
    }
}

fn prefabs() -> PrefabLib {
    let mut lib = PrefabLib::new();
    lib.insert(
        String::from("patroller"),
        prefab("enemy", Material { diffuse: [225, 80, 70], ambient: [56, 20, 18] }),
    );
    lib.insert(
        String::from("landmark_block"),
        prefab("landmark", Material { diffuse: [120, 120, 138], ambient: [34, 34, 44] }),
    );
    lib
}

fn contents() -> NameMap<Zone> {
    let mut zones = NameMap::new();
    zones.insert(String::from("atrium"), atrium_zone());
    zones.insert(String::from("corridor"), Zone { instances: vec![] });
    zones
}

fn atrium() -> Space {
    assemble(&manifest(), &contents(), &prefabs())
        .ok()
        .unwrap()
        .into_iter()
        .find(|(s, _)| s == "atrium")
        .unwrap()
        .1
}

fn zone(place: [f32; 2], min: [f32; 2], max: [f32; 2]) -> Space {
    Space {
        camera: Camera::default(),
        place: b2(place),
        bounds: Bounds { min: b2(min), max: b2(max) },
        instances: Vec::new(),
    }
}

/// How two zones lie to each other on the map.
fn meet(a: &Space, c: &Space) -> Meeting {
    const TOL: f32 = 0.01;
    let edges = |s: &Space| {
        [
            f(s.place[0]) + f(s.bounds.min[0]),
            f(s.place[0]) + f(s.bounds.max[0]),
            f(s.place[1]) + f(s.bounds.min[1]),
            f(s.place[1]) + f(s.bounds.max[1]),
        ]
    };
    let [axmin, axmax, azmin, azmax] = edges(a);
    let [bxmin, bxmax, bzmin, bzmax] = edges(c);
    let seam = |meets: bool, lo: f32, hi: f32, origin: f32| {
        if meets && hi - lo > TOL {
            Some((b(lo - origin), b(hi - origin)))
        } else {
            None
        }
    };
    let (zlo, zhi) = (azmin.max(bzmin), azmax.min(bzmax));
    let (xlo, xhi) = (axmin.max(bxmin), axmax.min(bxmax));
    let (px, pz) = (f(a.place[0]), f(a.place[1]));
    Meeting {
        delta: [b(px - f(c.place[0])), b(pz - f(c.place[1]))],
        east: seam((axmax - bxmin).abs() < TOL, zlo, zhi, pz),
        west: seam((axmin - bxmax).abs() < TOL, zlo, zhi, pz),
        north: seam((azmax - bzmin).abs() < TOL, xlo, xhi, px),
        south: seam((azmin - bzmax).abs() < TOL, xlo, xhi, px),
    }
}

fn connect(zones: &[(String, Space)]) -> NameMap<Vec<Connection>> {
    let names: Vec<String> = zones.iter().map(|(n, _)| n.clone()).collect();
    let meetings: Vec<Vec<Meeting>> =
        zones.iter().map(|(_, a)| zones.iter().map(|(_, c)| meet(a, c)).collect()).collect();
    derive_connections(&names, &meetings)
}

#[test]
fn lit_placement_passes_through() {
    let zone = atrium_zone();
    let inst = resolve_placement(&zone.instances[0], &prefabs()).unwrap();
    assert_eq!(inst.role, "avatar");
    assert_eq!(inst.mesh.as_deref(), Some("teapot"));
    assert!(inst.material.is_some());
}

#[test]
fn use_expands_prefab_with_overrides() {
    let zone = atrium_zone();
    let lib = prefabs();

    let patrol = resolve_placement(&zone.instances[1], &lib).unwrap();
    assert_eq!(patrol.role, "enemy");
    assert_eq!(patrol.mesh.as_deref(), Some("cube"));
    assert_eq!(patrol.scale, b3([0.16, 0.16, 0.16]));
    assert_eq!(patrol.pos, b3([-1.4, 0.0, 0.0]));
    assert_eq!(patrol.path, vec![b2([-1.4, 0.0]), b2([1.4, 0.0])]);
    assert_eq!(patrol.rot, b3([0.0, 0.0, 0.0]));

    let lm = resolve_placement(&zone.instances[3], &lib).unwrap();
    assert_eq!(lm.role, "landmark");
    assert_eq!(lm.rot, b3([0.0, 0.3, 0.0]));
}

#[test]
fn unknown_prefab_errors() {
    let ghost = placed("ghost", [0.0; 3], None, vec![]);
    let err = resolve_placement(&ghost, &prefabs()).unwrap_err();
    assert!(err.contains("ghost"), "{err}");
}

#[test]
fn placements_are_moved_and_rerouted() {
    let mut p = placed("patroller", [1.0, 2.0, 3.0], None, vec![]);
    assert_eq!(p.pos(), b3([1.0, 2.0, 3.0]));
    *p.pos_mut() = b3([4.0, 5.0, 6.0]);
    assert_eq!(p.pos(), b3([4.0, 5.0, 6.0]));
    p.path_mut().push(b2([1.0, 2.0]));
    assert_eq!(p.path(), &vec![b2([1.0, 2.0])]);
    p.pos_mut()[1] = b(7.0);
    assert_eq!(p.pos(), b3([4.0, 7.0, 6.0]));

    let mut lit = atrium_zone().instances.remove(0);
    lit.pos_mut()[0] = b(1.5);
    lit.path_mut().push(b2([0.5, 0.5]));
    assert_eq!(lit.pos(), b3([1.5, 0.0, 0.0]));
    assert_eq!(lit.path(), &vec![b2([0.5, 0.5])]);
    assert!(matches!(lit, Placement::Lit(i) if i.role == "avatar"));
}

#[test]
fn assemble_combines_manifest_layout_with_zone_content() {
    let assembled = assemble(&manifest(), &contents(), &prefabs()).ok().unwrap();

    let atrium = &assembled.iter().find(|(s, _)| s == "atrium").unwrap().1;
    assert!(matches!(atrium.camera, Camera::Follow { .. }));
    assert_eq!(atrium.place, b2([0.0, 0.0]));
    assert_eq!(atrium.bounds.max, b2([2.0, 2.0]));
    assert_eq!(atrium.instances.len(), 4);
    let corridor = &assembled.iter().find(|(s, _)| s == "corridor").unwrap().1;
    assert!(matches!(corridor.camera, Camera::Rail2_5D { .. }));
}

#[test]
fn assemble_rejects_missing_content_or_bad_entry() {
    let mut only_atrium = NameMap::new();
    only_atrium.insert(String::from("atrium"), atrium_zone());
    assert!(assemble(&manifest(), &only_atrium, &prefabs()).is_err());

    let bad_entry = Level {
        name: String::from("X"),
        entry: String::from("nope"),
        zones: NameMap::new(),
    };
    assert!(assemble(&bad_entry, &NameMap::new(), &prefabs()).is_err());
}

#[test]
fn assembled_zone_encodes_to_expected_header() {
    let blob = encode(&atrium(), &[]);
    assert_eq!(&blob[0..4], b"BSC1");
    assert_eq!(u16::from_le_bytes([blob[4], blob[5]]), VERSION);
    assert_eq!(u16::from_le_bytes([blob[6], blob[7]]), 0);
}

#[test]
fn loader_reads_baked_zones() {
    let zones: Vec<(String, Space)> =
        assemble(&manifest(), &contents(), &prefabs()).ok().unwrap();
    let conns = connect(&zones);
    for (stem, space) in &zones {
        let own = conns.get(stem).unwrap();
        let blob = encode(space, own);
        let scene = parse_scene(&blob).unwrap();
        match (space.camera, scene.camera) {
            (
                Camera::Follow { height, dist, pitch },
                CameraMode::Follow { height: h, dist: d, pitch: p },
            ) => assert_eq!((height, dist, pitch), (h, d, p)),
            (
                Camera::Rail2_5D { height, dist, pitch },
                CameraMode::Rail2_5D { height: h, dist: d, pitch: p },
            ) => assert_eq!((height, dist, pitch), (h, d, p)),
            other => panic!("{other:?}"),
        }
        assert_eq!(scene.instances.len(), space.instances.len());
        for (read, put) in scene.instances.iter().zip(&space.instances) {
            assert_eq!(read.mesh, put.mesh);
            assert_eq!(read.role, put.role);
            assert_eq!((read.pos, read.rot, read.scale), (put.pos, put.rot, put.scale));
            assert_eq!(read.material, put.material.map(|m| (m.diffuse, m.ambient)));
            assert_eq!(read.flags, put.flags);
            assert_eq!(read.path, put.path);
        }
        assert!(scene.exits.is_empty());
        assert_eq!(
            scene.bounds,
            Some(SceneBoundsData { min: space.bounds.min, max: space.bounds.max })
        );
        assert_eq!(scene.conns.len(), 1);
        assert_eq!(
            scene.conns[0],
            SceneConnData {
                neighbour: own[0].neighbour.clone(),
                side: own[0].side,
                lo: own[0].lo,
                hi: own[0].hi,
                delta: own[0].delta,
                gate: own[0].gate,
            }
        );
        // A zone that loses any of its last bytes is refused; more bytes are not read.
        for cut in 0..blob.len() {
            assert!(parse_scene(&blob[..cut]).is_none(), "len {cut} should not parse");
        }
        let mut longer = blob.clone();
        longer.push(7);
        assert_eq!(parse_scene(&longer), Some(scene));
        // So is one of a later version.
        let mut later = blob.clone();
        later[4] = 3;
        assert!(parse_scene(&later).is_none());
    }
}

#[test]
fn crossing_back_undoes_crossing() {
    let zones = vec![
        ("a".to_string(), zone([0.5, 1.0], [-1.0, -1.0], [1.0, 1.0])),
        ("b".to_string(), zone([2.5, 1.25], [-1.0, -1.0], [1.0, 1.0])),
    ];
    let conns = connect(&zones);
    let there = &conns.get("a").unwrap()[0];
    let back = &conns.get("b").unwrap()[0];
    assert_eq!((there.neighbour.as_str(), there.side), ("b", SIDE_EAST));
    assert_eq!((back.neighbour.as_str(), back.side), ("a", SIDE_WEST));
    assert_eq!(there.delta, b2([-2.0, -0.25]));
    assert_eq!(back.delta, b2([2.0, 0.25]));
    assert_eq!(back.delta, [there.delta[0].negate(), there.delta[1].negate()]);
}

#[test]
fn validate_rejects_missing_mesh() {
    let atrium = atrium();
    let err = validate(&atrium, |_: &str| false).err().unwrap().message("", "");
    assert!(err.contains("teapot") || err.contains("cube"), "{err}");
    assert!(validate(&atrium, |_: &str| true).is_ok());
}

#[test]
fn the_first_invalid_zone_is_named() {
    let mut zones = vec![
        ("a".to_string(), zone([0.0, 0.0], [-1.0, -1.0], [1.0, 1.0])),
        ("b".to_string(), zone([0.0, 0.0], [1.0, -1.0], [1.0, 1.0])),
    ];
    let (index, err) = first_invalid(&zones, |_: &str| true).unwrap();
    assert_eq!(index, 1);
    assert_eq!(
        err.message("[1.0, -1.0]", "[1.0, 1.0]"),
        "bounds min [1.0, -1.0] must be strictly less than max [1.0, 1.0] on both axes"
    );
    zones.pop();
    assert!(first_invalid(&zones, |_: &str| true).is_none());
}

#[test]
fn validate_rejects_blank_roles() {
    let mut space = atrium();
    space.instances[1].role = String::from(" \t");
    let err = validate(&space, |_: &str| true).err().unwrap().message("", "");
    assert_eq!(err, "instance 1: empty `role`");
}

#[test]
fn derives_connection_between_abutting_zones() {
    let level = manifest();
    let zones: Vec<(String, Space)> = level
        .zones
        .entries
        .iter()
        .map(|(stem, e)| {
            (
                stem.clone(),
                Space { camera: e.camera, place: e.place, bounds: e.bounds, instances: Vec::new() },
            )
        })
        .collect();
    let conns = connect(&zones);

    let a = conns.get("atrium").unwrap();
    assert_eq!(a.len(), 1, "atrium should connect to exactly the corridor");
    assert_eq!(a[0].neighbour, "corridor");
    assert_eq!(a[0].side, SIDE_EAST);
    assert!((f(a[0].delta[0]) - (-4.2)).abs() < 1e-4, "delta {:?}", a[0].delta);
    assert!(f(a[0].delta[1]).abs() < 1e-4);
    assert!((f(a[0].lo) - (-0.55)).abs() < 1e-4 && (f(a[0].hi) - 0.55).abs() < 1e-4);

    let c = conns.get("corridor").unwrap();
    assert_eq!(c.len(), 1);
    assert_eq!(c[0].side, SIDE_WEST);
    assert!((f(c[0].delta[0]) - 4.2).abs() < 1e-4, "delta {:?}", c[0].delta);

    let dirs = LevelDirs {
        name: String::from("facility"),
        src: String::from("assets/levels/facility"),
        dst_root: String::from("build/nitrofs/levels"),
    };
    let baked = bake_zones(&dirs, &zones, &conns);
    assert_eq!(baked.len(), 2);
    assert_eq!(baked[0].blob, encode(&zones[0].1, a));
    assert!(baked[0].built.warnings.is_empty());
    assert_eq!(baked[0].built.input, "assets/levels/facility/atrium.ron");
    assert_eq!(baked[1].built.output, "build/nitrofs/levels/facility/corridor.scene");
    assert_eq!(baked[1].built.level, "facility");
}

#[test]
fn isolated_zone_warns_only_in_a_multi_zone_map() {
    let zones = vec![
        ("a".to_string(), zone([0.0, 0.0], [-1.0, -1.0], [1.0, 1.0])),
        ("b".to_string(), zone([100.0, 0.0], [-1.0, -1.0], [1.0, 1.0])),
    ];
    let warns = isolation_warnings(&connect(&zones));
    assert_eq!(warns.len(), 2);
    let lone = vec![("solo".to_string(), zone([0.0, 0.0], [-1.0, -1.0], [1.0, 1.0]))];
    assert_eq!(isolation_warnings(&connect(&lone)).len(), 0);
}

#[test]
fn validate_rejects_degenerate_bounds() {
    let mut space = zone([0.0, 0.0], [-2.0, -2.0], [2.0, 2.0]);
    space.bounds = Bounds { min: b2([2.0, -2.0]), max: b2([-2.0, 2.0]) };
    assert!(validate(&space, |_: &str| true).is_err());
}

#[test]
fn emit_consts_nests_per_level() {
    let built = vec![
        Built {
            input: String::from("assets/levels/facility/atrium.ron"),
            output: String::from("build/nitrofs/levels/facility/atrium.scene"),
            level: "facility".to_string(),
            stem: "atrium".to_string(),
            warnings: Vec::new(),
        },
        Built {
            input: String::from("assets/levels/facility/corridor.ron"),
            output: String::from("build/nitrofs/levels/facility/corridor.scene"),
            level: "facility".to_string(),
            stem: "corridor".to_string(),
            warnings: Vec::new(),
        },
    ];
    let rs = emit_rust_consts(&built);
    assert!(rs.contains("pub mod facility {"), "{rs}");
    assert!(
        rs.contains(r#"pub const ATRIUM: &[u8] = b"nitro:/levels/facility/atrium.scene\0";"#),
        "{rs}"
    );
    assert!(rs.contains("CORRIDOR"), "{rs}");
    // Before a bake the same constants are predicted from the file names.
    let listing = LevelListing {
        name: "facility".to_string(),
        files: vec!["corridor.ron".to_string(), "level.ron".to_string(), "atrium.ron".to_string()],
    };
    assert_eq!(predict_consts(&[listing]), rs);
    // Without levels both declare nothing.
    assert_eq!(predict_consts(&[]), emit_rust_consts(&[]));
}

#[test]
fn prediction_declares_what_the_bake_declares() {
    let stems = ["a-b", "a", "2nd"];
    let dirs = LevelDirs {
        name: String::from("tower"),
        src: String::from("levels/tower"),
        dst_root: String::from("out"),
    };
    let zones: Vec<(String, Space)> = stems
        .iter()
        .map(|s| (s.to_string(), zone([0.0, 0.0], [-1.0, -1.0], [1.0, 1.0])))
        .collect();
    let built: Vec<Built> =
        bake_zones(&dirs, &zones, &connect(&zones)).into_iter().map(|z| z.built).collect();
    let files = ["a.ron", "level.ron", "2nd.ron", "notes.txt", "a-b.ron"];
    let listing = |name: &str, files: &[&str]| LevelListing {
        name: name.to_string(),
        files: files.iter().map(|f| f.to_string()).collect(),
    };
    let guess = predict_consts(&[listing("drafts", &["x.ron"]), listing("tower", &files)]);
    let source = emit_rust_consts(&built);
    // The same constants; here the files come in another order than the zones.
    let sorted = |text: &str| {
        let mut lines: Vec<String> = text.lines().map(String::from).collect();
        lines.sort();
        lines
    };
    assert_eq!(sorted(&guess), sorted(&source));
    assert!(guess != source);
    // In the order of their files, the same source.
    let ordered: Vec<(String, Space)> = ["2nd", "a-b", "a"]
        .iter()
        .map(|s| (s.to_string(), zone([0.0, 0.0], [-1.0, -1.0], [1.0, 1.0])))
        .collect();
    let built: Vec<Built> =
        bake_zones(&dirs, &ordered, &connect(&ordered)).into_iter().map(|z| z.built).collect();
    assert_eq!(guess, emit_rust_consts(&built));
}

#[test]
fn const_name_uppercases_and_guards_digits() {
    assert_eq!(const_name("corridor_b"), "CORRIDOR_B");
    assert_eq!(const_name("atrium"), "ATRIUM");
    assert_eq!(const_name("2nd-floor"), "_2ND_FLOOR");
}

#[test]
fn name_maps_keep_their_order() {
    let mut m = NameMap::new();
    m.insert(String::from("b"), 2);
    m.insert(String::from("a"), 1);
    m.insert(String::from("b"), 3);
    assert_eq!(m.len(), 2);
    assert_eq!(m.get("b"), Some(&3));
    assert!(m.contains("a") && !m.contains("c"));
    assert_eq!(m.entries, vec![(String::from("a"), 1), (String::from("b"), 3)]);
}
