use bevy_nds::bake::cli::{parse_bank_args, parse_level_args, parse_model_args};
use bevy_nds::bake::files::FoundFile;
use bevy_nds::bake::link::{has_part, link_lines};
use bevy_nds::bake::names::{const_name, module_name};
use bevy_nds::bake::obj2dl::plan_dir;
use bevy_nds::bake::tools::{tool_places, GRIT_IN_KIT};
use bevy_nds::bake::wav::{has_smpl, inject_forward_loop, parse as parse_wav};
use bevy_nds::bake::wav2bank::{bank_args, collect_wavs, plan_bank, predict_ids, prepare, sample_const_name};
use bevy_nds::bake::{png2bg, png2sprite};
use bevy_nds::bg::asset::{parse_bitmap, parse_tile};
use bevy_nds::float::F32Bits;
use bevy_nds::sprite::asset::parse as parse_sprite;

fn strings(items: &[&str]) -> Vec<String> {
    items.iter().map(|s| s.to_string()).collect()
}

#[test]
fn tile_header_layout_is_stable() {
    let bg = png2bg::TileBg {
        palette: vec![0x0001, 0x0002],
        gfx: vec![0xAA, 0xBB],
        map: vec![0xCC, 0xDD, 0xEE, 0xFF],
    };
    let bytes = png2bg::encode_tile(&bg);
    assert_eq!(&bytes[0..4], b"BTB1");
    assert_eq!(u32::from_le_bytes(bytes[4..8].try_into().unwrap()), 2);
    assert_eq!(u32::from_le_bytes(bytes[8..12].try_into().unwrap()), 2);
    assert_eq!(u32::from_le_bytes(bytes[12..16].try_into().unwrap()), 4);
    assert_eq!(u16::from_le_bytes([bytes[16], bytes[17]]), 0x0001);
    assert_eq!(u16::from_le_bytes([bytes[18], bytes[19]]), 0x0002);
    assert_eq!(&bytes[20..22], &[0xAA, 0xBB]);
    assert_eq!(&bytes[22..26], &[0xCC, 0xDD, 0xEE, 0xFF]);
    assert_eq!(bytes.len(), 16 + 4 + 2 + 4);
}

#[test]
fn bitmap_header_layout_is_stable() {
    let bg = png2bg::BitmapBg {
        width: 256,
        height: 2,
        pixels: vec![0x7FFF, 0x0001, 0x8000, 0xABCD],
    };
    let bytes = png2bg::encode_bitmap(&bg);
    assert_eq!(&bytes[0..4], b"BBB1");
    assert_eq!(u16::from_le_bytes([bytes[4], bytes[5]]), 256);
    assert_eq!(u16::from_le_bytes([bytes[6], bytes[7]]), 2);
    assert_eq!(u32::from_le_bytes(bytes[8..12].try_into().unwrap()), 4);
    assert_eq!(u16::from_le_bytes([bytes[12], bytes[13]]), 0x7FFF);
    assert_eq!(u16::from_le_bytes([bytes[18], bytes[19]]), 0xABCD);
    assert_eq!(bytes.len(), 12 + 4 * 2);
}

#[test]
fn const_name_upper_cases_and_sanitises() {
    assert_eq!(const_name("forest"), "FOREST");
    assert_eq!(const_name("hill-01"), "HILL_01");
    assert_eq!(const_name("photo.day"), "PHOTO_DAY");
}

#[test]
fn lib_const_name_upper_cases_and_sanitises() {
    assert_eq!(const_name("cursor"), "CURSOR");
    assert_eq!(const_name("hit-01"), "HIT_01");
    assert_eq!(const_name("player.run"), "PLAYER_RUN");
}

#[test]
fn module_name_is_lower_snake_safe_for_identifiers() {
    assert_eq!(module_name("tiled"), "tiled");
    assert_eq!(module_name("Bitmap"), "bitmap");
    assert_eq!(module_name("2d"), "_2d");
}

#[test]
fn lib_module_name_is_lower_snake_safe_for_identifiers() {
    assert_eq!(module_name("ui"), "ui");
    assert_eq!(module_name("Ui-Bits"), "ui_bits");
    assert_eq!(module_name("2d"), "_2d");
}

#[test]
fn kind_extension_picks_per_flavour() {
    assert_eq!(png2bg::Kind::Tile.extension(), "bg");
    assert_eq!(png2bg::Kind::Bitmap.extension(), "bbg");
}

#[test]
fn emit_rust_consts_separates_tiled_and_bitmap() {
    let items = vec![
        png2bg::Baked {
            input: String::from("/dev/null"),
            kind: png2bg::Kind::Tile,
            rel: strings(&["tiled", "forest.bg"]),
            const_path: strings(&["tiled", "FOREST"]),
            nitrofs_path: String::from("nitro:/backgrounds/tiled/forest.bg"),
        },
        png2bg::Baked {
            input: String::from("/dev/null"),
            kind: png2bg::Kind::Bitmap,
            rel: strings(&["bitmap", "photo.bbg"]),
            const_path: strings(&["bitmap", "PHOTO"]),
            nitrofs_path: String::from("nitro:/backgrounds/bitmap/photo.bbg"),
        },
    ];
    let src = png2bg::emit_rust_consts(&items);
    assert!(src.contains("pub mod tiled {"));
    assert!(src.contains("pub mod bitmap {"));
    assert!(src.contains("pub const FOREST: &[u8] = b\"nitro:/backgrounds/tiled/forest.bg\\0\";"));
    assert!(src.contains("pub const PHOTO: &[u8] = b\"nitro:/backgrounds/bitmap/photo.bbg\\0\";"));
}

fn found(dirs: &[&str], file_name: &str) -> FoundFile {
    let mut input = String::from("/src");
    for d in dirs {
        input.push('/');
        input.push_str(d);
    }
    input.push('/');
    input.push_str(file_name);
    FoundFile { input, dirs: strings(dirs), file_name: file_name.to_string() }
}

#[test]
fn discover_routes_subdirs_to_the_right_kind() {
    let files = vec![
        found(&["tiled"], "forest.png"),
        found(&["bitmap"], "photo.png"),
        // At the root the kind is ambiguous: ignored.
        found(&[], "loose.png"),
        found(&["tiled"], "notes.txt"),
    ];
    let items = png2bg::discover(&files);
    let pairs: Vec<_> = items.iter().map(|b| (b.kind, b.nitrofs_path.as_str())).collect();
    assert_eq!(
        pairs,
        vec![
            (png2bg::Kind::Bitmap, "nitro:/backgrounds/bitmap/photo.bbg"),
            (png2bg::Kind::Tile, "nitro:/backgrounds/tiled/forest.bg"),
        ]
    );
    assert_eq!(png2bg::predict_dir(&files).len(), 2);
    let built = png2bg::Built { items };
    assert_eq!(built.inputs(), strings(&["/src/bitmap/photo.png", "/src/tiled/forest.png"]));
}

#[test]
fn header_layout_is_stable() {
    let sprite = png2sprite::Sprite {
        width: 16,
        height: 16,
        palette: vec![0x0001, 0x0002, 0x0003],
        gfx: vec![0xAA, 0xBB, 0xCC, 0xDD],
    };
    let bytes = png2sprite::encode(&sprite);
    assert_eq!(&bytes[0..4], b"BSP1");
    assert_eq!(u16::from_le_bytes([bytes[4], bytes[5]]), 16);
    assert_eq!(u16::from_le_bytes([bytes[6], bytes[7]]), 16);
    assert_eq!(u32::from_le_bytes([bytes[8], bytes[9], bytes[10], bytes[11]]), 3);
    assert_eq!(u32::from_le_bytes([bytes[12], bytes[13], bytes[14], bytes[15]]), 4);
    assert_eq!(u16::from_le_bytes([bytes[16], bytes[17]]), 0x0001);
    assert_eq!(u16::from_le_bytes([bytes[18], bytes[19]]), 0x0002);
    assert_eq!(u16::from_le_bytes([bytes[20], bytes[21]]), 0x0003);
    assert_eq!(&bytes[22..26], &[0xAA, 0xBB, 0xCC, 0xDD]);
    assert_eq!(bytes.len(), 16 + 6 + 4);
}

#[test]
fn emit_rust_consts_groups_by_module() {
    let item = |rel: &[&str], const_path: &[&str], path: &str| png2sprite::Baked {
        input: String::from("/dev/null"),
        rel: strings(rel),
        const_path: strings(const_path),
        nitrofs_path: path.to_string(),
    };
    let items = vec![
        item(&["cursor.sprite"], &["CURSOR"], "nitro:/sprites/cursor.sprite"),
        item(&["ui", "cursor.sprite"], &["ui", "CURSOR"], "nitro:/sprites/ui/cursor.sprite"),
        item(&["ui", "select.sprite"], &["ui", "SELECT"], "nitro:/sprites/ui/select.sprite"),
    ];
    let src = png2sprite::emit_rust_consts(&items);
    assert!(src.contains("pub const CURSOR: &[u8] = b\"nitro:/sprites/cursor.sprite\\0\";"));
    assert!(src.contains("pub mod ui {"));
    assert!(src.contains("pub const CURSOR: &[u8] = b\"nitro:/sprites/ui/cursor.sprite\\0\";"));
    assert!(src.contains("pub const SELECT: &[u8] = b\"nitro:/sprites/ui/select.sprite\\0\";"));
}

#[test]
fn discover_walks_subdirs_in_sorted_order() {
    let files = vec![
        found(&[], "cursor.png"),
        found(&["ui"], "select.png"),
        found(&["ui"], "cursor.png"),
    ];
    let items = png2sprite::discover(&files);
    let paths: Vec<_> = items.iter().map(|b| b.nitrofs_path.as_str()).collect();
    assert_eq!(
        paths,
        vec![
            "nitro:/sprites/cursor.sprite",
            "nitro:/sprites/ui/cursor.sprite",
            "nitro:/sprites/ui/select.sprite",
        ]
    );
    assert_eq!(items[0].const_path, vec!["CURSOR".to_string()]);
    assert_eq!(items[1].const_path, vec!["ui".to_string(), "CURSOR".to_string()]);
}

#[test]
fn baked_images_are_read_back() {
    let tile = png2bg::bake_tile(vec![1, 2], vec![3, 4], &[0x34, 0x12]).unwrap();
    let read = parse_tile(&png2bg::encode_tile(&tile)).unwrap();
    assert_eq!((read.palette, read.gfx, read.map), (vec![0x1234], vec![1, 2], vec![3, 4]));
    let bitmap = png2bg::bake_bitmap("a.png", 256, 1, &[7; 512]).unwrap();
    let read = parse_bitmap(&png2bg::encode_bitmap(&bitmap)).unwrap();
    assert_eq!((read.width, read.pixels), (256, vec![0x0707; 256]));
    let opts = png2sprite::Options { width: 8, height: 8 };
    let (sprite, warning) = png2sprite::bake("a.png", vec![0; 32], &[1, 0], &opts).unwrap();
    assert!(warning.is_none());
    let read = parse_sprite(&png2sprite::encode(&sprite)).unwrap();
    assert_eq!((read.width, read.height, read.palette, read.gfx), (8, 8, vec![1], vec![0; 32]));
}

#[test]
fn baked_images_cut_short_are_refused() {
    let bitmap = png2bg::bake_bitmap("a.png", 256, 1, &[7; 512]).unwrap();
    let blob = png2bg::encode_bitmap(&bitmap);
    assert!(parse_bitmap(&blob).is_some());
    for keep in [0, 11, 12, blob.len() - 1] {
        assert!(parse_bitmap(&blob[..keep]).is_none());
    }
}

#[test]
fn image_faults_are_named() {
    assert_eq!(
        png2bg::bake_tile(vec![], vec![], &[1]).unwrap_err(),
        "palette length 1 not a multiple of 2 (u16)"
    );
    assert_eq!(
        png2bg::bake_bitmap("a.png", 256, 1, &[0; 3]).unwrap_err(),
        "a.png gfx is 3 bytes, expected 512 for 256x1 16bpp"
    );
    assert_eq!(
        png2bg::check_bitmap_size("a.png", 128, 1).unwrap_err(),
        "a.png is 128px wide; bitmap backgrounds require 256"
    );
    assert_eq!(
        png2bg::bake_bitmap("a.png", 256, 257, &[]).unwrap_err(),
        "a.png is 257px tall; bitmap backgrounds need 1..=256"
    );
    assert!(png2bg::check_bitmap_size("a.png", 256, 0).is_err());
    assert!(png2bg::check_bitmap_size("a.png", 256, 257).is_err());
    assert!(png2bg::check_bitmap_size("a.png", 256, 256).is_ok());
    assert!(png2bg::check_tile_size("a.png", 16, 12).is_err());
    assert!(png2bg::check_tile_size("a.png", 16, 24).is_ok());
    let opts = png2sprite::Options { width: 8, height: 8 };
    let (_, warning) = png2sprite::bake("a.png", vec![0; 30], &[], &opts).unwrap();
    assert!(warning.unwrap().contains("a.png"));
    assert!(png2sprite::bake("a.png", vec![], &[1], &opts).is_err());
    // The size stands in the header chunk.
    let mut png = vec![0x89, b'P', b'N', b'G', 0x0d, 0x0a, 0x1a, 0x0a, 0, 0, 0, 13];
    png.extend_from_slice(b"IHDR");
    png.extend_from_slice(&256u32.to_be_bytes());
    png.extend_from_slice(&192u32.to_be_bytes());
    assert_eq!(png2bg::png_dimensions("a.png", &png), Ok((256, 192)));
    assert!(png2bg::png_dimensions("a.png", &png[..20]).is_err());
    assert!(png2bg::png_dimensions("a.png", b"GIF89a..................").is_err());
}

fn make_wav(rate: u32, n: usize) -> Vec<u8> {
    let mut v = Vec::new();
    v.extend_from_slice(b"RIFF");
    v.extend_from_slice(&((36 + n) as u32).to_le_bytes());
    v.extend_from_slice(b"WAVE");
    v.extend_from_slice(b"fmt ");
    v.extend_from_slice(&16u32.to_le_bytes());
    v.extend_from_slice(&1u16.to_le_bytes());
    v.extend_from_slice(&1u16.to_le_bytes());
    v.extend_from_slice(&rate.to_le_bytes());
    v.extend_from_slice(&rate.to_le_bytes());
    v.extend_from_slice(&1u16.to_le_bytes());
    v.extend_from_slice(&8u16.to_le_bytes());
    v.extend_from_slice(b"data");
    v.extend_from_slice(&(n as u32).to_le_bytes());
    v.extend(core::iter::repeat(0x80u8).take(n));
    v
}

fn read_u32(bytes: &[u8], at: usize) -> Option<u32> {
    bytes.get(at..at + 4).map(|b| u32::from_le_bytes([b[0], b[1], b[2], b[3]]))
}

#[test]
fn parses_format_and_frames() {
    let wav = make_wav(16000, 100);
    let info = parse_wav(&wav).unwrap();
    assert_eq!(info.channels, 1);
    assert_eq!(info.bits_per_sample, 8);
    assert_eq!(info.sample_rate, 16000);
    assert_eq!(info.data_len, 100);
    assert_eq!(info.frames(), 100);
}

#[test]
fn foreign_chunks_are_skipped() {
    let wav = make_wav(16000, 100);
    for body in [&b"abc"[..], &b"abcd"[..]] {
        let mut more = wav[..12].to_vec();
        more.extend_from_slice(b"LIST");
        more.extend_from_slice(&(body.len() as u32).to_le_bytes());
        more.extend_from_slice(body);
        if body.len() % 2 == 1 {
            more.push(0);
        }
        more.extend_from_slice(&wav[12..]);
        let (a, c) = (parse_wav(&wav).unwrap(), parse_wav(&more).unwrap());
        assert_eq!(
            (a.channels, a.bits_per_sample, a.sample_rate, a.data_len),
            (c.channels, c.bits_per_sample, c.sample_rate, c.data_len)
        );
        assert!(!has_smpl(&more));
    }
}

#[test]
fn rejects_non_wav() {
    assert!(parse_wav(b"not a wav at all").is_err());
}

#[test]
fn injects_a_loop_and_fixes_riff_size() {
    let wav = make_wav(16000, 100);
    assert!(!has_smpl(&wav));
    let looped = inject_forward_loop(&wav).unwrap();
    assert!(has_smpl(&looped));
    assert_eq!(looped.len(), wav.len() + 68);
    let riff = read_u32(&looped, 4).unwrap() as usize;
    assert_eq!(riff, looped.len() - 8);
    let info = parse_wav(&looped).unwrap();
    assert_eq!(info.frames(), 100);
}

#[test]
fn loop_end_is_last_frame() {
    let wav = make_wav(8000, 50);
    let looped = inject_forward_loop(&wav).unwrap();
    let mut pos = 12usize;
    let mut end = None;
    while pos + 8 <= looped.len() {
        if &looped[pos..pos + 4] == b"smpl" {
            let rec = pos + 8 + 36;
            end = read_u32(&looped, rec + 12);
            break;
        }
        let size = read_u32(&looped, pos + 4).unwrap() as usize;
        pos = pos + 8 + size + (size & 1);
    }
    assert_eq!(end, Some(49));
}

#[test]
fn injection_is_idempotent() {
    let wav = make_wav(16000, 100);
    let once = inject_forward_loop(&wav).unwrap();
    let twice = inject_forward_loop(&once).unwrap();
    assert_eq!(once, twice, "should not append a second smpl chunk");
}

#[test]
fn soundbank_ids_follow_the_names() {
    let music = strings(&["piano_loop.wav", "notes.txt", "Ambient.wav"]);
    let sfx = strings(&["blip-select.wav", "a.wav"]);
    assert_eq!(collect_wavs(&music), strings(&["Ambient.wav", "piano_loop.wav"]));
    assert_eq!(sample_const_name("blip-select"), "SFX_BLIP_SELECT");
    let ids: Vec<(String, u32)> =
        predict_ids(&music, &sfx).into_iter().map(|d| (d.name, d.value)).collect();
    assert_eq!(
        ids,
        vec![
            ("SFX_AMBIENT".to_string(), 0),
            ("SFX_PIANO_LOOP".to_string(), 1),
            ("SFX_A".to_string(), 2),
            ("SFX_BLIP_SELECT".to_string(), 3),
        ]
    );
    let plan = plan_bank("audio", &music, &sfx).ok().unwrap();
    let looped: Vec<(String, bool)> = plan.into_iter().map(|p| (p.file, p.looped)).collect();
    assert_eq!(looped[1], ("piano_loop.wav".to_string(), true));
    assert_eq!(looped[2], ("a.wav".to_string(), false));
    assert_eq!(
        plan_bank("audio", &vec![], &strings(&["x.ogg"])).err().unwrap(),
        "no .wav files under audio"
    );
    let wav = make_wav(8000, 10);
    assert_eq!(prepare(&wav, false).unwrap(), wav);
    assert_eq!(prepare(&wav, true).unwrap(), inject_forward_loop(&wav).unwrap());
    assert!(prepare(b"junk", true).is_err());
    assert_eq!(prepare(b"junk", false).unwrap(), b"junk");
}

#[test]
fn model_directory_is_planned() {
    let files = strings(&["teapot.obj", "readme.md", "cube.obj", "noext"]);
    let plan = plan_dir("assets", "build/nitrofs/", &files);
    let pairs: Vec<(String, String)> = plan.into_iter().map(|b| (b.input, b.output)).collect();
    assert_eq!(
        pairs,
        vec![
            ("assets/cube.obj".to_string(), "build/nitrofs/cube.dl".to_string()),
            ("assets/teapot.obj".to_string(), "build/nitrofs/teapot.dl".to_string()),
        ]
    );
}

#[test]
fn tools_are_looked_for_in_order() {
    assert_eq!(
        tool_places(
            &Some(String::from("/opt/grit")),
            &Some(String::from("/kit")),
            GRIT_IN_KIT,
            &strings(&["/bin", "/usr/bin/"]),
            "grit",
        ),
        strings(&["/opt/grit", "/kit/tools/grit/grit", "/bin/grit", "/usr/bin/grit"])
    );
    assert!(tool_places(&None, &None, GRIT_IN_KIT, &vec![], "grit").is_empty());
}

#[test]
fn soundbank_command_line() {
    let a = parse_bank_args(&strings(&["-i", "audio", "--output", "x/bank.bin", "--ids", "ids.rs"]))
        .unwrap()
        .unwrap();
    assert_eq!((a.input.as_str(), a.output.as_str(), a.ids.as_str()), ("audio", "x/bank.bin", "ids.rs"));
    assert_eq!(a.mmutil, None);
    let err = |args: &[&str]| parse_bank_args(&strings(args)).unwrap_err();
    assert_eq!(err(&[]), "missing --input <audio dir>");
    assert_eq!(err(&["-i", "a"]), "missing --output <soundbank.bin>");
    assert_eq!(err(&["-i", "a", "-o", "b"]), "missing --ids <sounds.rs>");
    assert_eq!(err(&["--mmutil"]), "--mmutil needs a path");
    assert_eq!(err(&["--what"]), "unknown argument `--what` (try --help)");
    // Help ends the line, whatever follows.
    assert!(parse_bank_args(&strings(&["-h", "--what"])).unwrap().is_none());
}

#[test]
fn level_command_line() {
    let a = parse_level_args(&strings(&["--levels", "a", "-o", "out"])).unwrap().unwrap();
    assert_eq!((a.levels.as_str(), a.out.as_deref()), ("a", Some("out")));
    assert_eq!((a.assets.as_str(), a.prefabs.as_str()), ("assets", "assets/prefabs"));
    // A check needs no destination and drops one that was given.
    let a = parse_level_args(&strings(&["-o", "out", "--check", "b", "--assets", "geo"])).unwrap().unwrap();
    assert_eq!((a.levels.as_str(), a.out, a.assets.as_str()), ("b", None, "geo"));
    let a = parse_level_args(&strings(&["--check", "b", "--levels", "c"])).unwrap().unwrap();
    assert_eq!((a.levels.as_str(), a.out), ("c", None));
    let err = |args: &[&str]| parse_level_args(&strings(args)).unwrap_err();
    assert_eq!(err(&[]), "missing --levels <dir> (or --check <dir>)");
    assert_eq!(err(&["-l", "a"]), "missing --out <dir>");
    assert_eq!(err(&["--check"]), "--check needs a path");
}

fn number(t: &str) -> Option<F32Bits> {
    t.parse::<f32>().ok().map(|v| F32Bits(v.to_bits()))
}

#[test]
fn model_command_line() {
    let a = parse_model_args(
        &strings(&["-i", "a.obj", "-o", "a.dl", "-c", "--offset", "1", "-0.5", "2e1"]),
        number,
    )
    .unwrap()
    .unwrap();
    assert_eq!((a.input.as_str(), a.output.as_str(), a.opts.center), ("a.obj", "a.dl", true));
    let offset: Vec<f32> = a.opts.offset.iter().map(|v| f32::from_bits(v.0)).collect();
    assert_eq!(offset, vec![1.0, -0.5, 20.0]);
    let err = |args: &[&str]| parse_model_args(&strings(args), number).unwrap_err();
    assert_eq!(err(&[]), "missing --input <file.obj>");
    assert_eq!(err(&["-i", "a"]), "missing --output <file.dl>");
    assert_eq!(err(&["--offset", "1"]), "--offset needs three numbers (offset y missing)");
    assert_eq!(err(&["--offset", "bad"]), "offset x is not a number");
    assert_eq!(err(&["--offset", "1", "2", "z", "--what"]), "offset z is not a number");
    assert!(parse_model_args(&strings(&["--help"]), number).unwrap().is_none());
}

#[test]
fn link_settings_are_only_for_the_handheld() {
    assert!(link_lines("x86_64-unknown-linux-gnu", Some("/opt/kit")).is_empty());
    assert!(link_lines("x86_64-unknown-linux-gnu", None).is_empty());
    let missing = link_lines("armv5te-nintendo-ds", None);
    assert_eq!(missing.len(), 1);
    assert!(missing[0].starts_with("cargo:warning=BLOCKSDS is not set."));
    let lines = link_lines("armv5te-nintendo-ds", Some("/opt/kit"));
    assert_eq!(lines.len(), 12);
    assert_eq!(lines[0], "cargo:rustc-link-arg=-mthumb");
    assert_eq!(lines[2], "cargo:rustc-link-arg=-specs=/opt/kit/sys/crts/ds_arm9.specs");
    assert_eq!(lines[4], "cargo:rustc-link-search=native=/opt/kit/libs/maxmod/lib");
    assert_eq!(lines[11], "cargo:rerun-if-env-changed=BLOCKSDS");
    assert!(has_part("abc", "") && has_part("", "") && has_part("abc", "bc"));
    assert!(!has_part("abc", "ca") && !has_part("ab", "abc"));
}

#[test]
fn kinds_go_by_their_names() {
    assert_eq!(png2bg::Kind::named("tile"), Some(png2bg::Kind::Tile));
    assert_eq!(png2bg::Kind::named("tiled"), Some(png2bg::Kind::Tile));
    assert_eq!(png2bg::Kind::named("bitmap"), Some(png2bg::Kind::Bitmap));
    assert_eq!(png2bg::Kind::named("bmp"), Some(png2bg::Kind::Bitmap));
    assert_eq!(png2bg::Kind::named("Tile"), None);
    assert_eq!(png2bg::TILE_FLAGS[3..6], ["-m", "-mR4", "-mLs"]);
    assert_eq!(png2bg::BITMAP_FLAGS, ["-gb", "-gB16", "-ftb", "-fh!"]);
    assert_eq!(png2sprite::SPRITE_FLAGS[6], "-fh!");
}

#[test]
fn the_soundbank_tool_is_told_files_first() {
    let files = strings(&["work/a.wav", "work/b.wav"]);
    assert_eq!(
        bank_args(&files, "out/soundbank.bin", "work/soundbank.h"),
        strings(&["work/a.wav", "work/b.wav", "-d", "-oout/soundbank.bin", "-hwork/soundbank.h"])
    );
}
