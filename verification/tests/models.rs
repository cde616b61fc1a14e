use bevy_nds::bake::model_macro::{emit, fl, parse_args, unquote, Leaf, Token, TokenClass};
use bevy_nds::bake::obj::{parse_face_vertex, parse_obj, resolve, Options};
use bevy_nds::float::F32Bits;
use bevy_nds::gpu::display_list::{
    display_list, fifo_pack, format_words_rust, model_to_le_bytes, parse_dl_asset, words_to_le_bytes, Model,
    PackedVertex, FIFO_BEGIN, FIFO_END, FIFO_NOP, FIFO_NORMAL, FIFO_VERTEX16,
};
use bevy_nds::gpu::mesh::{Display3d, DsMaterial, DsMesh, Transform3d};
use bevy_nds::gpu::render::{
    flush_3d, init_3d, is_pickable, pick_3d, pick_nearest, reduce_angle, render_3d, set_antialias,
    set_clear_poly_id, set_outline, view_rotation, DrawItem, DrawVertex, FrameLight, FrameView, Gpu,
    MeshDraw, PickReading, TouchPick, GFX_BEGIN, GFX_COLOR, GFX_CONTROL, GFX_DIFFUSE_AMBIENT,
    GFX_EDGE_TABLE, GFX_END, GFX_LIGHT_COLOR, GFX_LIGHT_VECTOR, GFX_NORMAL, GFX_POLY_FORMAT,
    GFX_VERTEX16, GFX_VIEWPORT, MATRIX_MULT_4X4, MATRIX_POP, MATRIX_PUSH, MATRIX_TRANSLATE,
};
use bevy_nds::gpu::words::{fog_color, normal_pack, poly_alpha, poly_id, rgb15, vertex10, vertex16, viewport_word};
use bevy_nds::math::fx::Fx32;
use bevy_nds::math::fx_vec::FxVec3;

const TRIANGLE: &str = "v 0 0 0\nv 1 0 0\nv 0 1 0\nvn 0 0 1\nf 1//1 2//1 3//1\n";

fn number(t: &str) -> Option<F32Bits> {
    t.parse::<f32>().ok().map(|v| F32Bits(v.to_bits()))
}

fn f(v: F32Bits) -> f32 {
    f32::from_bits(v.0)
}

fn v16(v: f32) -> i16 {
    (v * 4096.0) as i16
}

fn v6(v: f32) -> i32 {
    (v * 64.0) as i32
}

fn v10(v: f32) -> u32 {
    let clamped = if v >= 1.0 {
        0x1FF
    } else if v < -1.0 {
        0x200
    } else {
        (v * 512.0) as i32
    };
    (clamped as u32) & 0x3FF
}

fn packed(source: &str) -> Vec<PackedVertex> {
    let model = parse_obj(source, number).ok().unwrap();
    let mut out = Vec::new();
    for t in &model.tris {
        for c in &t.verts {
            let n = c.normal.unwrap();
            let p = [f(c.pos[0]), f(c.pos[1]), f(c.pos[2])];
            out.push(PackedVertex {
                normal: normal_pack(v10(f(n[0])), v10(f(n[1])), v10(f(n[2]))),
                pos16: [v16(p[0]), v16(p[1]), v16(p[2])],
                pos10: [v6(p[0]), v6(p[1]), v6(p[2])],
            });
        }
    }
    out
}

#[test]
fn fifo_pack_is_little_endian() {
    assert_eq!(fifo_pack([0x40, 0x21, 0x23, 0x41]), 0x4123_2140);
    assert_eq!(fifo_pack([FIFO_END, FIFO_NOP, FIFO_NOP, FIFO_NOP]), 0x0000_0041);
}

#[test]
fn single_triangle_display_list_layout() {
    let model = parse_obj(TRIANGLE, number).ok().unwrap();
    assert_eq!(model.tris.len(), 1);

    let words = display_list(&packed(TRIANGLE), false);
    assert_eq!(words[0], 12, "length header counts body words only");
    assert_eq!(words.len(), 13);
    assert_eq!(
        words[1],
        fifo_pack([FIFO_BEGIN, FIFO_NORMAL, FIFO_VERTEX16, FIFO_NORMAL])
    );
    // The argument of the first command selects triangles.
    assert_eq!(words[2], 0);
    assert_eq!(
        words[7],
        fifo_pack([FIFO_VERTEX16, FIFO_NORMAL, FIFO_VERTEX16, FIFO_END])
    );
}

#[test]
fn packing_matches_hardware_format() {
    assert_eq!(vertex16(v16(1.0), v16(0.0), v16(0.0)), (0x0000_1000, 0x0000_0000));
    assert_eq!(vertex16(v16(-1.0), v16(0.0), v16(0.0)).0 & 0xFFFF, 0xF000);
    assert_eq!(normal_pack(v10(0.0), v10(0.0), v10(1.0)), 0x1FF << 20);
}

#[test]
fn quads_are_fan_triangulated() {
    let model = parse_obj("v 0 0 0\nv 1 0 0\nv 1 1 0\nv 0 1 0\nf 1 2 3 4\n", number).ok().unwrap();
    assert_eq!(model.tris.len(), 2);
    // Both triangles start at the first corner.
    for t in &model.tris {
        assert_eq!(t.verts[0].pos, model.positions[0]);
    }
    assert_eq!(model.tris[1].verts[1].pos, model.positions[2]);
    assert_eq!(model.tris[1].verts[2].pos, model.positions[3]);
}

#[test]
fn vertex10_packs_three_components() {
    assert_eq!(vertex10(v6(1.0), v6(0.0), v6(0.0)), 0x40);
    assert_eq!(vertex10(v6(0.0), v6(1.0), v6(0.0)), 0x40 << 10);
    assert_eq!(vertex10(v6(0.0), v6(0.0), v6(1.0)), 0x40 << 20);
    assert_eq!(vertex10(v6(-1.0), v6(0.0), v6(0.0)) & 0x3FF, 0x3C0);
}

#[test]
fn compress_shrinks_display_list() {
    let verts = packed(TRIANGLE);
    let plain = display_list(&verts, false);
    let short = display_list(&verts, true);
    // One triangle has three vertices; each is a word shorter.
    assert_eq!(plain.len() - short.len(), 3);
    assert_eq!(short[0] as usize, short.len() - 1);
}

#[test]
fn models_round_trip_through_assets() {
    let one = F32Bits(1.0f32.to_bits());
    let zero = F32Bits(0);
    let model = Model { words: vec![2, 0x41, 7], aabb: [[zero, zero, zero], [one, one, one]] };
    let bytes = model_to_le_bytes(&model);
    let (words, min, max) = parse_dl_asset(&bytes).unwrap();
    assert_eq!((words, min, max), (model.words.clone(), model.aabb[0], model.aabb[1]));
    assert!(parse_dl_asset(&bytes[..bytes.len() - 1]).is_none());
    let mut bad = bytes.clone();
    bad[0] ^= 0xff;
    assert!(parse_dl_asset(&bad).is_none());
    let mesh = DsMesh::from_asset(&bytes).unwrap();
    assert!(mesh.lit && mesh.tris.is_empty());
    assert_eq!(mesh.baked.unwrap().words, vec![2, 0x41, 7]);
    assert_eq!(words_to_le_bytes(&[0x0102_0304]), vec![4, 3, 2, 1]);
    assert_eq!(format_words_rust(&[1, 0xabcd]), "\n        0x00000001,0x0000ABCD,");
}

#[test]
fn obj_faults_are_named() {
    let err = |source: &str| parse_obj(source, number).err().unwrap();
    assert!(err("v 0 0\n").contains("line 1"));
    assert!(err("v 0 0 0\nf 1 1 2\n").contains("vertex index out of range"));
    assert!(err("v 0 0 0\nf 1//1 1 1\n").contains("normal index out of range"));
    // The token is shown with its quotes.
    assert!(err("v 0 0 0\nf a\"b 1 1\n").contains("malformed face vertex \"a\\\"b\""));
    // Comments, unknown lines and blank lines are passed over.
    let ok = parse_obj("# hi\n\no thing\nv 1 2 3\nf -1 -1 -1\n", number).ok().unwrap();
    assert_eq!(ok.tris.len(), 1);
    assert_eq!(resolve(3, 1), Some(0));
    assert_eq!(resolve(3, -1), Some(2));
    assert_eq!(resolve(3, 0), None);
    assert_eq!(resolve(3, 4), None);
    assert_eq!(resolve(3, -4), None);
    let chars = |t: &str| t.chars().collect::<Vec<char>>();
    assert_eq!(parse_face_vertex(&chars("3/2/-1")), Some((3, Some(-1))));
    assert_eq!(parse_face_vertex(&chars("3")), Some((3, None)));
    assert_eq!(parse_face_vertex(&chars("3//")), Some((3, None)));
    assert_eq!(parse_face_vertex(&chars("x")), None);
}

fn token(class: TokenClass, text: &str) -> Token {
    Token { class, text: text.to_string(), inner: Vec::new() }
}

fn leaf(class: TokenClass, text: &str) -> Leaf {
    Leaf { class, text: text.to_string() }
}

fn offset(leaves: Vec<Leaf>) -> Vec<Token> {
    vec![
        token(TokenClass::Literal, "\"a.obj\""),
        token(TokenClass::Punct, ","),
        token(TokenClass::Ident, "offset"),
        token(TokenClass::Punct, "="),
        Token { class: TokenClass::Group, text: String::from("[..]"), inner: leaves },
    ]
}

#[test]
fn macro_arguments_are_read() {
    let tokens = [
        token(TokenClass::Literal, "\"assets/teapot.obj\""),
        token(TokenClass::Punct, ","),
        token(TokenClass::Ident, "center"),
        token(TokenClass::Punct, ","),
        token(TokenClass::Ident, "compress"),
    ];
    let args = parse_args(&tokens, number).ok().unwrap();
    assert_eq!(args.path, "assets/teapot.obj");
    assert!(args.opts.center && args.opts.compress);
    assert_eq!(args.opts.offset, Options::default().offset);
    let lit = TokenClass::Literal;
    let punct = TokenClass::Punct;
    let tokens = offset(vec![
        leaf(lit, "0.5"),
        leaf(punct, ","),
        leaf(punct, "-"),
        leaf(lit, "0.25"),
        leaf(punct, ","),
        leaf(lit, "2"),
    ]);
    let args = parse_args(&tokens, number).ok().unwrap();
    let xyz: Vec<f32> = args.opts.offset.iter().map(|v| f(*v)).collect();
    assert_eq!(xyz, vec![0.5, -0.25, 2.0]);
}

#[test]
fn macro_faults_are_named() {
    let err = |tokens: &[Token]| parse_args(tokens, number).err().unwrap();
    let lit = TokenClass::Literal;
    assert_eq!(
        err(&[]),
        "include_obj! expects a path, e.g. include_obj!(\"assets/model.obj\")"
    );
    assert_eq!(
        err(&[token(lit, "42")]),
        "include_obj!: first argument must be a string-literal path"
    );
    assert_eq!(
        err(&[token(lit, "\"a\""), token(TokenClass::Ident, "shiny")]),
        "include_obj!: unknown setting `shiny`"
    );
    assert_eq!(
        err(&[token(lit, "\"a\""), token(TokenClass::Ident, "offset")]),
        "include_obj!: expected `=` after `offset`, found end of input"
    );
    assert_eq!(
        err(&[
            token(lit, "\"a\""),
            token(TokenClass::Ident, "offset"),
            token(TokenClass::Punct, "="),
            token(lit, "1"),
        ]),
        "include_obj!: expected `[x, y, z]` after `offset =`, found `1`"
    );
    let one = || leaf(TokenClass::Literal, "1");
    assert_eq!(
        err(&offset(vec![one()])),
        "include_obj!: offset takes exactly 3 numbers, e.g. [0.0, -0.2, 0.0]"
    );
    assert_eq!(
        err(&offset(vec![one(), one(), one(), one()])),
        "include_obj!: offset takes exactly 3 numbers"
    );
    assert_eq!(
        err(&offset(vec![leaf(TokenClass::Literal, "x1")])),
        "include_obj!: `x1` is not a number"
    );
    assert_eq!(
        err(&offset(vec![leaf(TokenClass::Ident, "y")])),
        "include_obj!: unexpected token `y` in offset"
    );
}

#[test]
fn macro_expansion() {
    assert_eq!(unquote(" \"a b\" ").as_deref(), Some("a b"));
    assert_eq!(unquote("\""), None);
    assert_eq!(unquote("a"), None);
    assert_eq!(fl("0"), "0.0");
    assert_eq!(fl("-1.5"), "-1.5");
    assert_eq!(fl("1e20"), "1e20");
    assert_eq!(fl("inf"), "inf");
    assert_eq!(fl("NaN"), "NaN");
    assert_eq!(
        emit(&[1], "/a/\"b\".obj", ("0", "0.5", "-1"), ("1", "2", "3")),
        "{\n    const _: &[u8] = include_bytes!(\"/a/\\\"b\\\".obj\");\n    const WORDS: &[u32] = &[\n        0x00000001,\n    ];\n    ::bevy_nds_3d::DsMesh::from_baked(WORDS, [0.0f32,0.5f32,-1.0f32], [1.0f32,2.0f32,3.0f32])\n}\n"
    );
}

#[test]
fn hardware_words() {
    assert_eq!(rgb15(255, 128, 8), 31 | (16 << 5) | (1 << 10));
    assert_eq!(poly_alpha(31), 31 << 16);
    assert_eq!(poly_id(5), 5 << 24);
    assert_eq!(viewport_word(0, 0, 255, 191), 0xBFFF_0000);
    assert_eq!(fog_color(255, 0, 0, 31), 31 | (31 << 16));
    assert_eq!(reduce_angle(32768 + 5), reduce_angle(5));
}

#[test]
fn cube_and_defaults() {
    let cube = DsMesh::cube(F32Bits(0.5f32.to_bits()));
    assert_eq!(cube.tris.len(), 12);
    assert!(!cube.lit && cube.baked.is_none());
    assert!(cube.tris.iter().all(|t| t.iter().all(|v| v.pos.iter().all(|c| f(*c).abs() == 0.5))));
    let t = Transform3d::default();
    assert_eq!(f(t.scale[0]), 1.0);
    assert_eq!(DsMaterial::default(), DsMaterial::default());
    let _ = Display3d::default();
    assert!(!init_3d().is_empty());
    assert!(matches!(flush_3d(), Gpu::Write { .. }));
}

#[test]
fn the_nearest_hit_is_picked() {
    let reading = |entity, before, after, distance| PickReading { entity, before, after, distance };
    let readings = vec![reading(1, 0, 0, 5), reading(2, 0, 1, 9), reading(3, 1, 2, 4)];
    assert_eq!(pick_nearest(&readings), Some(3));
    assert_eq!(pick_nearest(&vec![reading(1, 3, 3, 1)]), None);
    let mut pick = TouchPick { entity: None };
    pick.update(Some(&readings));
    assert_eq!(pick.entity, Some(3));
    pick.update(None);
    assert_eq!(pick.entity, None);
}

fn frame_view() -> FrameView {
    let still = (Fx32::zero(), Fx32::one());
    FrameView {
        fovy: 6371,
        aspect: 5461,
        near: 409,
        far: 163840,
        rotation: view_rotation(still, still),
        offset: [0, 0, -12288],
    }
}

fn draw_item(lit: bool, baked: bool) -> DrawItem {
    let corner = |x: i16| DrawVertex { pos: [x, -1, 2], normal: 0x1ff, color: [255, 8, 0] };
    DrawItem {
        draw: MeshDraw::default(),
        visible: false,
        in_range: false,
        lit,
        baked,
        material: None,
        tris: if baked { vec![] } else { vec![[corner(0), corner(1), corner(2)]] },
    }
}

fn written(steps: &[Gpu], at: u32) -> Vec<u32> {
    steps
        .iter()
        .filter_map(|step| match step {
            Gpu::Write { reg, value } if *reg == at => Some(*value),
            _ => None,
        })
        .collect()
}

#[test]
fn a_frame_sets_the_view_and_draws_its_meshes() {
    let items = vec![draw_item(false, false)];
    let steps = render_3d(&frame_view(), &[None; 4], &items);
    assert_eq!(steps[0], Gpu::Write { reg: GFX_VIEWPORT, value: 0xbfff_0000 });
    let perspective = Gpu::Perspective { fovy: 6371, aspect: 5461, near: 409, far: 163840 };
    assert!(steps.contains(&perspective));
    assert_eq!(written(&steps, MATRIX_TRANSLATE), vec![0, 0, (-12288i32) as u32]);
    // The view and the mesh each apply a whole matrix.
    let matrices = written(&steps, MATRIX_MULT_4X4);
    assert_eq!(matrices.len(), 32);
    assert_eq!(matrices[0], 4096);
    assert_eq!(matrices[15], 4096);
    // Alpha 31, nothing culled, fog.
    assert_eq!(written(&steps, GFX_POLY_FORMAT), vec![0x1f_80c0]);
    assert_eq!(written(&steps, GFX_BEGIN), vec![0]);
    assert_eq!(written(&steps, GFX_COLOR), vec![0x3f; 3]);
    assert_eq!(written(&steps, GFX_NORMAL), Vec::<u32>::new());
    assert_eq!(
        written(&steps, GFX_VERTEX16),
        vec![0xffff_0000, 2, 0xffff_0001, 2, 0xffff_0002, 2]
    );
    assert_eq!(written(&steps, GFX_END), vec![0]);
    assert_eq!(written(&steps, MATRIX_PUSH), vec![0]);
    assert_eq!(written(&steps, MATRIX_POP), vec![1]);
}

#[test]
fn lit_meshes_take_lights_and_materials() {
    let light = FrameLight {
        direction: FxVec3::new(Fx32::zero(), Fx32::zero(), Fx32::from_int(-2)),
        color: [255, 255, 255],
    };
    let items = vec![draw_item(true, true), draw_item(true, false)];
    let steps = render_3d(&frame_view(), &[None, Some(light), None, None], &items);
    assert_eq!(written(&steps, GFX_LIGHT_VECTOR), vec![0x4000_0000 + (0x200 << 20)]);
    assert_eq!(written(&steps, GFX_LIGHT_COLOR), vec![0x4000_7fff]);
    // Alpha 31, back faces culled, fog, the second light.
    assert_eq!(written(&steps, GFX_POLY_FORMAT), vec![0x1f_8082; 2]);
    let material = 0x6b39 + 0x8000 + (0x18a5 << 16);
    assert_eq!(written(&steps, GFX_DIFFUSE_AMBIENT), vec![material; 2]);
    assert!(steps.contains(&Gpu::CallList { mesh: 0 }));
    assert!(!steps.contains(&Gpu::CallList { mesh: 1 }));
    assert_eq!(written(&steps, GFX_NORMAL), vec![0x1ff; 3]);
}

#[test]
fn bounded_meshes_out_of_sight_or_range_are_skipped() {
    for (visible, in_range) in [(false, false), (false, true), (true, false), (true, true)] {
        let mut item = draw_item(false, false);
        item.draw.has_bounds = true;
        item.visible = visible;
        item.in_range = in_range;
        let items = vec![item];
        let drawn = written(&render_3d(&frame_view(), &[None; 4], &items), GFX_BEGIN).len();
        assert_eq!(drawn, if visible && in_range { 1 } else { 0 });
        // Picking asks only whether it is in sight.
        assert_eq!(is_pickable(&items[0]), visible);
        let tested = written(&pick_3d(&frame_view(), 10, 20, &items), GFX_BEGIN).len();
        assert_eq!(tested, if visible { 1 } else { 0 });
    }
}

#[test]
fn a_picking_pass_counts_around_each_mesh() {
    let items = vec![draw_item(false, false), draw_item(true, true)];
    let steps = pick_3d(&frame_view(), 10, 20, &items);
    assert!(steps.contains(&Gpu::PickMatrix { x: 10, y: 171, width: 4, height: 4 }));
    assert_eq!(steps.iter().filter(|s| **s == Gpu::CountPolygons).count(), 4);
    assert_eq!(steps.iter().filter(|s| **s == Gpu::WaitIdle).count(), 4);
    assert_eq!(written(&steps, GFX_POLY_FORMAT), vec![0x1f_00c0]);
    assert_eq!(written(&steps, GFX_COLOR), Vec::<u32>::new());
}

#[test]
fn styles_are_bits_of_the_control_register() {
    assert_eq!(set_antialias(true), Gpu::SetBits { reg: GFX_CONTROL, bits: 0x10 });
    assert_eq!(set_antialias(false), Gpu::ClearBits { reg: GFX_CONTROL, bits: 0x10 });
    let on = set_outline(true, 0x1_7fff);
    assert_eq!(on.len(), 9);
    assert_eq!(on[7], Gpu::WriteHalf { reg: GFX_EDGE_TABLE + 14, value: 0x7fff });
    assert_eq!(on[8], Gpu::SetBits { reg: GFX_CONTROL, bits: 0x20 });
    assert_eq!(set_outline(false, 0), vec![Gpu::ClearBits { reg: GFX_CONTROL, bits: 0x20 }]);
    assert_eq!(set_clear_poly_id(63), Gpu::ClearPolyId { id: 63 });
}

#[test]
fn models_cut_short_are_refused() {
    let words = vec![1, 2, 3];
    let bytes = model_to_le_bytes(&Model { words, aabb: [[F32Bits(0); 3]; 2] });
    assert!(parse_dl_asset(&bytes).is_some());
    for keep in [0, 31, 32, bytes.len() - 1] {
        assert!(parse_dl_asset(&bytes[..keep]).is_none());
    }
}
