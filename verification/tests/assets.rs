use bevy_nds::bg::asset::{
    parse_bitmap, parse_tile, BITMAP_HEADER_LEN, BITMAP_MAGIC, TILE_HEADER_LEN, TILE_MAGIC,
};
use bevy_nds::float::F32Bits;
use bevy_nds::scene::asset::{
    parse as parse_scene, CameraMode, SceneData, SceneExitData, SceneInstanceData, MAGIC as SCENE_MAGIC,
    VERSION as SCENE_VERSION,
};
use bevy_nds::scene::paths::{level_space_path, mesh_path, spawn, LoadSpace};
use bevy_nds::sprite::asset::{parse as parse_sprite, HEADER_LEN, MAGIC as SPRITE_MAGIC};

fn tile_blob(palette: &[u16], gfx: &[u8], map: &[u8]) -> Vec<u8> {
    let mut out = Vec::with_capacity(TILE_HEADER_LEN + palette.len() * 2 + gfx.len() + map.len());
    out.extend_from_slice(&TILE_MAGIC.to_le_bytes());
    out.extend_from_slice(&(palette.len() as u32).to_le_bytes());
    out.extend_from_slice(&(gfx.len() as u32).to_le_bytes());
    out.extend_from_slice(&(map.len() as u32).to_le_bytes());
    for &p in palette {
        out.extend_from_slice(&p.to_le_bytes());
    }
    out.extend_from_slice(gfx);
    out.extend_from_slice(map);
    out
}

fn bitmap_blob(width: u16, height: u16, pixels: &[u16]) -> Vec<u8> {
    let mut out = Vec::with_capacity(BITMAP_HEADER_LEN + pixels.len() * 2);
    out.extend_from_slice(&BITMAP_MAGIC.to_le_bytes());
    out.extend_from_slice(&width.to_le_bytes());
    out.extend_from_slice(&height.to_le_bytes());
    out.extend_from_slice(&(pixels.len() as u32).to_le_bytes());
    for &p in pixels {
        out.extend_from_slice(&p.to_le_bytes());
    }
    out
}

#[test]
fn parse_tile_round_trips() {
    let pal = [0u16, 0x03FF, 0x001F];
    let gfx = [0xAAu8, 0xBB, 0xCC];
    let map = [0xCCu8, 0xDD, 0xEE, 0xFF];
    let blob = tile_blob(&pal, &gfx, &map);
    let parsed = parse_tile(&blob).unwrap();
    assert_eq!(parsed.palette, pal);
    assert_eq!(parsed.gfx, gfx);
    assert_eq!(parsed.map, map);
}

#[test]
fn parse_tile_rejects_short_header() {
    assert!(parse_tile(&[]).is_none());
    assert!(parse_tile(&[0u8; 4]).is_none());
}

#[test]
fn parse_tile_rejects_bad_magic() {
    let mut blob = tile_blob(&[0u16; 4], &[0u8; 8], &[0u8; 16]);
    blob[0] ^= 0xFF;
    assert!(parse_tile(&blob).is_none());
}

#[test]
fn parse_tile_rejects_truncated_body() {
    let blob = tile_blob(&[0u16; 4], &[0u8; 8], &[0u8; 16]);
    let trunc = &blob[..blob.len() - 1];
    assert!(parse_tile(trunc).is_none());
}

#[test]
fn parse_bitmap_round_trips() {
    let pixels = [0x7FFFu16, 0x0001, 0x8000, 0xABCD];
    let blob = bitmap_blob(2, 2, &pixels);
    let parsed = parse_bitmap(&blob).unwrap();
    assert_eq!(parsed.width, 2);
    assert_eq!(parsed.pixels, pixels);
}

#[test]
fn parse_bitmap_rejects_mismatched_pixel_count() {
    let pixels = [0u16; 5];
    let blob = bitmap_blob(2, 2, &pixels);
    let mut blob = blob;
    blob[8..12].copy_from_slice(&5u32.to_le_bytes());
    assert!(parse_bitmap(&blob).is_none());
}

#[test]
fn parse_bitmap_rejects_bad_magic() {
    let mut blob = bitmap_blob(2, 2, &[0u16; 4]);
    blob[0] ^= 0xFF;
    assert!(parse_bitmap(&blob).is_none());
}

fn sprite_blob(palette: &[u16], gfx: &[u8]) -> Vec<u8> {
    let mut out = Vec::with_capacity(HEADER_LEN + palette.len() * 2 + gfx.len());
    out.extend_from_slice(&SPRITE_MAGIC.to_le_bytes());
    out.extend_from_slice(&16u16.to_le_bytes());
    out.extend_from_slice(&16u16.to_le_bytes());
    out.extend_from_slice(&(palette.len() as u32).to_le_bytes());
    out.extend_from_slice(&(gfx.len() as u32).to_le_bytes());
    for &p in palette {
        out.extend_from_slice(&p.to_le_bytes());
    }
    out.extend_from_slice(gfx);
    out
}

#[test]
fn parses_a_round_trip() {
    let pal = [0u16, 0x03FF, 0x001F];
    let gfx = [0xAAu8, 0xBB, 0xCC, 0xDD];
    let blob = sprite_blob(&pal, &gfx);
    let parsed = parse_sprite(&blob).unwrap();
    assert_eq!(parsed.width, 16);
    assert_eq!(parsed.height, 16);
    assert_eq!(parsed.palette, pal);
    assert_eq!(parsed.gfx, gfx);
}

#[test]
fn rejects_short_header() {
    assert!(parse_sprite(&[]).is_none());
    assert!(parse_sprite(&[0u8; 4]).is_none());
}

#[test]
fn asset_rejects_bad_magic() {
    let mut blob = sprite_blob(&[0u16; 16], &[0u8; 128]);
    blob[0] ^= 0xFF;
    assert!(parse_sprite(&blob).is_none());
}

#[test]
fn rejects_bad_magic() {
    let mut blob = encode(&sample());
    blob[0] ^= 0xFF;
    assert!(parse_scene(&blob).is_none());
}

#[test]
fn rejects_truncated_body() {
    let blob = sprite_blob(&[0u16; 16], &[0u8; 128]);
    let trunc = &blob[..blob.len() - 1];
    assert!(parse_sprite(trunc).is_none());
}

fn b(v: f32) -> F32Bits {
    F32Bits(v.to_bits())
}

fn b3(v: [f32; 3]) -> [F32Bits; 3] {
    [b(v[0]), b(v[1]), b(v[2])]
}

struct Writer(Vec<u8>);

impl Writer {
    fn u8(&mut self, v: u8) {
        self.0.push(v);
    }
    fn u16(&mut self, v: u16) {
        self.0.extend_from_slice(&v.to_le_bytes());
    }
    fn u32(&mut self, v: u32) {
        self.0.extend_from_slice(&v.to_le_bytes());
    }
    fn float(&mut self, v: F32Bits) {
        self.u32(v.0);
    }
    fn string(&mut self, s: &str) {
        self.u16(s.len() as u16);
        self.0.extend_from_slice(s.as_bytes());
    }
}

fn sample() -> SceneData {
    SceneData {
        camera: CameraMode::Follow { height: b(1.7), dist: b(2.0), pitch: b(-0.7) },
        instances: vec![
            SceneInstanceData {
                mesh: Some(String::from("teapot")),
                role: String::from("avatar"),
                pos: b3([0.0, 0.0, 0.0]),
                rot: b3([-1.5708, 0.0, 0.0]),
                scale: b3([0.11, 0.11, 0.11]),
                material: Some(([110, 180, 235], [26, 40, 58])),
                flags: 0,
                path: vec![],
            },
            SceneInstanceData {
                mesh: Some(String::from("cube")),
                role: String::from("enemy"),
                pos: b3([1.2, 0.0, 0.6]),
                rot: b3([0.0, 0.4, 0.0]),
                scale: b3([0.16, 0.16, 0.16]),
                material: None,
                flags: 0x01,
                path: vec![[b(1.2), b(0.6)], [b(1.2), b(-0.6)]],
            },
        ],
        exits: vec![SceneExitData {
            target: String::from("corridor_b"),
            at: b3([2.0, 0.0, 0.0]),
            gate: 0,
        }],
        bounds: None,
        conns: vec![],
    }
}

fn encode(s: &SceneData) -> Vec<u8> {
    let zero = b(0.0);
    let mut w = Writer(Vec::new());
    w.u32(SCENE_MAGIC);
    w.u16(SCENE_VERSION);
    let (mode, params) = match s.camera {
        CameraMode::Follow { height, dist, pitch } => (0, [height, dist, pitch, zero]),
        CameraMode::TopDown { height } => (1, [height, zero, zero, zero]),
        CameraMode::Rail2_5D { height, dist, pitch } => (2, [height, dist, pitch, zero]),
        CameraMode::CaptureFraming => (3, [zero; 4]),
    };
    w.u16(mode);
    for v in params {
        w.float(v);
    }
    w.u32(s.instances.len() as u32);
    for inst in &s.instances {
        w.string(inst.mesh.as_deref().unwrap_or(""));
        w.string(&inst.role);
        for v in inst.pos {
            w.float(v);
        }
        for v in inst.rot {
            w.float(v);
        }
        for v in inst.scale {
            w.float(v);
        }
        let (has, d, a) = match inst.material {
            Some((d, a)) => (1, d, a),
            None => (0, [0; 3], [0; 3]),
        };
        w.u8(has);
        for v in d {
            w.u8(v);
        }
        for v in a {
            w.u8(v);
        }
        w.u32(inst.flags);
        w.u16(inst.path.len() as u16);
        for p in &inst.path {
            w.float(p[0]);
            w.float(p[1]);
        }
    }
    w.u32(s.exits.len() as u32);
    for e in &s.exits {
        w.string(&e.target);
        for v in e.at {
            w.float(v);
        }
        w.u32(e.gate);
    }
    w.0
}

#[test]
fn round_trips() {
    let scene = sample();
    let blob = encode(&scene);
    assert_eq!(parse_scene(&blob), Some(scene));
}

#[test]
fn asset_rejects_unknown_version() {
    let mut blob = encode(&sample());
    blob[4] = 0xFF;
    assert!(parse_scene(&blob).is_none());
}

#[test]
fn rejects_truncation() {
    let blob = encode(&sample());
    for cut in 0..blob.len() {
        assert!(parse_scene(&blob[..cut]).is_none(), "len {cut} should not parse");
    }
}

#[test]
fn empty_mesh_becomes_none() {
    let scene = SceneData {
        camera: CameraMode::TopDown { height: b(3.2) },
        instances: vec![SceneInstanceData {
            mesh: None,
            role: String::from("spawn"),
            pos: b3([0.0; 3]),
            rot: b3([0.0; 3]),
            scale: b3([1.0; 3]),
            material: None,
            flags: 0,
            path: vec![],
        }],
        exits: vec![],
        bounds: None,
        conns: vec![],
    };
    let parsed = parse_scene(&encode(&scene)).unwrap();
    assert_eq!(parsed.instances[0].mesh, None);
    assert_eq!(parsed.camera, CameraMode::TopDown { height: b(3.2) });
}

#[test]
fn scene_with_broken_text_is_rejected() {
    // Every camera mode parses; an unknown one does not.
    for camera in [
        CameraMode::Rail2_5D { height: b(1.0), dist: b(2.0), pitch: b(3.0) },
        CameraMode::CaptureFraming,
    ] {
        let scene = SceneData { camera, instances: vec![], exits: vec![], bounds: None, conns: vec![] };
        let blob = encode(&scene);
        assert_eq!(parse_scene(&blob).unwrap().camera, camera);
        let mut unknown = blob.clone();
        unknown[6] = 9;
        assert!(parse_scene(&unknown).is_none());
    }
    // Text has to be valid UTF-8: the role's first byte stands behind the mesh name.
    let blob = encode(&sample());
    let at = blob.windows(6).position(|w| w == b"avatar").unwrap();
    let mut bad = blob.clone();
    bad[at] = 0xFF;
    assert!(parse_scene(&bad).is_none());
    // Text beyond ASCII stays whole.
    let mut scene = sample();
    scene.instances[0].role = String::from("café");
    assert_eq!(parse_scene(&encode(&scene)), Some(scene));
}

#[test]
fn level_space_path_builds_nul_terminated_nitro_path() {
    assert_eq!(
        level_space_path("facility", "corridor"),
        b"nitro:/levels/facility/corridor.scene\0"
    );
    assert_eq!(
        level_space_path("facility", "atrium"),
        b"nitro:/levels/facility/atrium.scene\0"
    );
    assert_eq!(level_space_path("facility", "corridor").last(), Some(&0));
    assert_eq!(
        LoadSpace::by_name("facility", "atrium").path,
        level_space_path("facility", "atrium")
    );
}

#[test]
fn spawn_plans_follow_the_instances() {
    let scene = sample();
    let plans = spawn(&scene);
    assert_eq!(plans.len(), 2);
    assert_eq!(plans[0].role, "avatar");
    assert_eq!(plans[0].mesh, Some(mesh_path("teapot")));
    assert_eq!(plans[0].material, Some(([110, 180, 235], [26, 40, 58])));
    assert!(plans[0].path.is_none());
    assert_eq!(plans[1].flags, 1);
    assert_eq!(plans[1].path, Some(vec![[b(1.2), b(0.6)], [b(1.2), b(-0.6)]]));
    assert_eq!(plans[1].translation, b3([1.2, 0.0, 0.6]));
}
