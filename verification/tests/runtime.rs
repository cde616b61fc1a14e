use bevy_input::ButtonInput;
use bevy_nds::audio::{play_sfx, Audio, LoadedEffects, Music, MusicStep, PlaySfx, SoundId};
use bevy_nds::bg::asset::{LoadedBitmap, LoadedTile};
use bevy_nds::bg::layers::{
    bitmap_upload, display_control, engine_for, hide_bg, show_bg, tile_bases, tile_upload, Backgrounds,
    BgEngine, BitmapSlot, TileSlot,
};
use bevy_nds::float::F32Bits;
use bevy_nds::input::{
    diff_touch, read_keys, touch_reading, Cluster, DsButton, Handedness, Shoulder, TouchPhase, TouchPos,
    KEY_DOWN, KEY_LEFT, KEY_RIGHT, KEY_TOUCH, KEY_UP,
};
use bevy_nds::rtc::WallClock;
use bevy_nds::save::{
    delete_result, is_valid_slot, mount_dir, read_result, slot_path, status_after_mount, write_result,
    SaveStorage, StorageStatus, DEFAULT_BASE_DIR,
};
use bevy_nds::sprite::asset::LoadedSprite;
use bevy_nds::sprite::engine::{
    load_plan, size_code_for, submit_sprites, ImageKey, Sprite, SpriteAssets, SIZE_16X16, SIZE_32X32,
};
use bevy_nds::sprite::slots::{SpriteSlots, MAX_SPRITES};
use bevy_nds::text::{Buffers, DsText, Glyph, GlyphItem, Grid, TextItem, TilePos, BLANK, COLS, ROWS};
use bevy_nds::video::{master_bright_bits, DsScreen, MasterBright};

#[test]
fn set_tile_on_empty_slot_starts_at_zero_scroll() {
    let mut bgs = Backgrounds::default();
    bgs.set_tile_scroll(DsScreen::Top, 4, 8);
    bgs.set_tile(DsScreen::Top, b"nitro:/x.bg\0");
    match &bgs.slots(DsScreen::Top).tile {
        TileSlot::Pending { scroll, .. } => assert_eq!(*scroll, (0, 0)),
        _ => panic!("expected Pending after set_tile"),
    }
}

#[test]
fn set_tile_scroll_on_pending_slot_sticks() {
    let mut bgs = Backgrounds::default();
    bgs.set_tile(DsScreen::Top, b"nitro:/x.bg\0");
    bgs.set_tile_scroll(DsScreen::Top, 12, -3);
    match &bgs.slots(DsScreen::Top).tile {
        TileSlot::Pending { scroll, .. } => assert_eq!(*scroll, (12, -3)),
        _ => panic!("expected Pending with updated scroll"),
    }
}

#[test]
fn clear_tile_resets_slot() {
    let mut bgs = Backgrounds::default();
    bgs.set_tile(DsScreen::Top, b"nitro:/x.bg\0");
    bgs.clear_tile(DsScreen::Top);
    assert!(matches!(bgs.slots(DsScreen::Top).tile, TileSlot::Empty));
}

#[test]
fn set_bitmap_top_makes_pending_bottom_is_noop() {
    let mut bgs = Backgrounds::default();
    bgs.set_bitmap(DsScreen::Top, b"nitro:/x.bbg\0");
    bgs.set_bitmap(DsScreen::Bottom, b"nitro:/y.bbg\0");
    assert!(matches!(bgs.slots(DsScreen::Top).bitmap, BitmapSlot::Pending { .. }));
    assert!(matches!(bgs.slots(DsScreen::Bottom).bitmap, BitmapSlot::Empty));
}

#[test]
fn replacing_a_pending_tile_image_preserves_scroll() {
    let mut bgs = Backgrounds::default();
    bgs.set_tile(DsScreen::Top, b"nitro:/a.bg\0");
    bgs.set_tile_scroll(DsScreen::Top, 9, 4);
    bgs.set_tile(DsScreen::Top, b"nitro:/b.bg\0");
    match &bgs.slots(DsScreen::Top).tile {
        TileSlot::Pending { image, scroll } => {
            assert_eq!(*image, b"nitro:/b.bg\0".as_slice());
            assert_eq!(*scroll, (9, 4));
        }
        _ => panic!("expected Pending"),
    }
}

#[test]
fn loaded_layers_scroll_and_hide() {
    let mut bgs = Backgrounds::default();
    bgs.set_tile(DsScreen::Bottom, b"nitro:/a.bg\0");
    assert_eq!(bgs.pending_tile(DsScreen::Bottom), Some(b"nitro:/a.bg\0".as_slice()));
    assert_eq!(bgs.pending_tile(DsScreen::Top), None);
    bgs.tile_loaded(DsScreen::Bottom, Some(5));
    assert_eq!(bgs.pending_tile(DsScreen::Bottom), None);
    bgs.set_tile_scroll(DsScreen::Bottom, 3, -2);
    assert_eq!(bgs.flush_scroll(DsScreen::Bottom), Some((5, 768, -512)));
    assert_eq!(bgs.flush_scroll(DsScreen::Bottom), None);
    assert_eq!(bgs.layers_to_hide(DsScreen::Bottom), (false, false));
    bgs.clear_tile(DsScreen::Bottom);
    assert_eq!(bgs.layers_to_hide(DsScreen::Bottom), (true, false));
    assert_eq!(bgs.layers_to_hide(DsScreen::Bottom), (false, false));
    bgs.set_bitmap(DsScreen::Top, b"nitro:/x.bbg\0");
    assert_eq!(bgs.pending_bitmap(DsScreen::Top), Some(b"nitro:/x.bbg\0".as_slice()));
    bgs.bitmap_loaded(DsScreen::Top, true);
    assert!(matches!(bgs.slots(DsScreen::Top).bitmap, BitmapSlot::Loaded));
    bgs.clear_bitmap(DsScreen::Top);
    assert_eq!(bgs.layers_to_hide(DsScreen::Top), (false, true));
    // An image that cannot be loaded leaves the slot empty.
    bgs.set_tile(DsScreen::Top, b"nitro:/gone.bg\0");
    bgs.tile_loaded(DsScreen::Top, None);
    assert!(matches!(bgs.slots(DsScreen::Top).tile, TileSlot::Empty));
}

#[test]
fn layer_registers() {
    assert_eq!(engine_for(DsScreen::Top), BgEngine::Main);
    assert_eq!(engine_for(DsScreen::Bottom), BgEngine::Sub);
    assert_eq!(display_control(BgEngine::Main), 0x0400_0000);
    assert_eq!(display_control(BgEngine::Sub), 0x0400_1000);
    assert_eq!(show_bg(0x5, 1), 0x205);
    assert_eq!(hide_bg(0x205, 1), 0x5);
    assert_eq!(tile_bases(DsScreen::Top), (16, 0));
    assert_eq!(tile_bases(DsScreen::Bottom), (16, 1));
}

#[test]
fn background_uploads() {
    let up = tile_upload(&LoadedTile {
        palette: vec![1, 2],
        gfx: vec![0x34, 0x12, 0x78],
        map: vec![0x01, 0xF4],
    });
    assert_eq!(up.gfx, vec![0x1234]);
    // The palette bank of every map entry becomes the tile bank.
    assert_eq!(up.map, vec![0x1401]);
    assert_eq!(up.palette_offset, 16);
    assert_eq!(up.palette, vec![1, 2]);
    // Rows are laid out 256 pixels apart.
    let pixels = bitmap_upload(&LoadedBitmap { width: 2, pixels: vec![7, 8, 9, 10] });
    assert_eq!(pixels, vec![(0, 7), (1, 8), (256, 9), (257, 10)]);
}

#[test]
fn size_code_for_recognises_square_sizes() {
    assert!(size_code_for(8, 8).is_some());
    assert!(size_code_for(16, 16).is_some());
    assert!(size_code_for(32, 32).is_some());
    assert!(size_code_for(64, 64).is_some());
}

#[test]
fn size_code_for_rejects_rectangles_and_unknowns() {
    assert!(size_code_for(16, 8).is_none());
    assert!(size_code_for(24, 24).is_none());
    assert!(size_code_for(0, 0).is_none());
}

#[test]
fn allocate_starts_from_zero_and_climbs() {
    let mut s = SpriteSlots::default();
    assert_eq!(s.allocate(), Some(0));
    assert_eq!(s.allocate(), Some(1));
    assert_eq!(s.allocate(), Some(2));
    assert_eq!(s.count(), 3);
}

#[test]
fn release_returns_the_lowest_slot_next() {
    let mut s = SpriteSlots::default();
    for _ in 0..5 {
        s.allocate();
    }
    s.release(2);
    assert_eq!(s.allocate(), Some(2));
}

#[test]
fn allocate_runs_out_at_max_sprites() {
    let mut s = SpriteSlots::default();
    for i in 0..MAX_SPRITES {
        assert_eq!(s.allocate(), Some(i as u8));
    }
    assert_eq!(s.count() as usize, MAX_SPRITES);
    assert_eq!(s.allocate(), None);
}

#[test]
fn allocation_crosses_word_boundary() {
    let mut s = SpriteSlots::default();
    for _ in 0..64 {
        s.allocate();
    }
    assert_eq!(s.allocate(), Some(64));
    assert!(s.is_used(64));
    assert!(!s.is_used(65));
}

#[test]
fn release_of_unknown_or_oob_is_a_noop() {
    let mut s = SpriteSlots::default();
    s.release(0);
    s.release(200);
    assert_eq!(s.count(), 0);
}

#[test]
fn is_used_tracks_allocations() {
    let mut s = SpriteSlots::default();
    let a = s.allocate().unwrap();
    let b = s.allocate().unwrap();
    assert!(s.is_used(a));
    assert!(s.is_used(b));
    s.release(a);
    assert!(!s.is_used(a));
    assert!(s.is_used(b));
}

#[test]
fn is_used_rejects_out_of_range() {
    let s = SpriteSlots::default();
    assert!(!s.is_used(200));
}

#[test]
fn sprites_are_submitted_and_old_ones_hidden() {
    let cursor = ImageKey { addr: 1, len: 4 };
    let other = ImageKey { addr: 2, len: 4 };
    let mut assets = SpriteAssets::default();
    assert_eq!(assets.bank_for(cursor), Some(0));
    assets.add(cursor, 77, SIZE_16X16);
    assert_eq!(assets.loaded_count(), 1);
    assert_eq!(assets.bank_for(cursor), None);
    assert_eq!(assets.find(cursor).unwrap().gfx, 77);
    assert!(assets.find(other).is_none());
    let sprites = vec![
        Sprite::new(cursor).at(10, 20),
        Sprite::new(other).at(1, 1),
        Sprite::new(cursor).at(-3, 5),
    ];
    let (entries, high) = submit_sprites(&assets, &sprites, 4);
    assert_eq!(high, 2);
    let shown: Vec<(u8, i32, i32, bool)> =
        entries.iter().map(|e| (e.id, e.x, e.y, e.hide)).collect();
    assert_eq!(
        shown,
        vec![(0, 10, 20, false), (1, -3, 5, false), (2, 0, 0, true), (3, 0, 0, true)]
    );
}

#[test]
fn sprite_load_plan() {
    let sprite = LoadedSprite {
        width: 32,
        height: 32,
        palette: (0..20).collect(),
        gfx: vec![0xCD, 0xAB],
    };
    let plan = load_plan(&sprite, 3).unwrap();
    assert_eq!(plan.size_code, SIZE_32X32);
    assert_eq!(plan.tiles, vec![0xABCD]);
    assert_eq!(plan.palette_offset, 48);
    assert_eq!(plan.palette.len(), 16);
    let odd = LoadedSprite { width: 24, height: 24, palette: vec![], gfx: vec![] };
    assert!(load_plan(&odd, 0).is_none());
}

fn runs(grid: &mut Grid) -> Vec<(usize, usize, Vec<u8>)> {
    grid.diff_runs().into_iter().map(|r| (r.row, r.col, r.bytes)).collect()
}

#[test]
fn put_writes_on_grid_cell() {
    let mut g = Grid::new();
    g.put(3, 2, b'A');
    assert_eq!(g.back[2 * COLS + 3], b'A');
}

#[test]
fn put_ignores_off_grid_coordinates() {
    let mut g = Grid::new();
    g.put(-1, 0, b'X');
    g.put(0, -1, b'X');
    g.put(COLS as i16, 0, b'X');
    g.put(0, ROWS as i16, b'X');
    assert!(g.back.iter().all(|&c| c == BLANK));
}

#[test]
fn put_str_clips_at_row_end() {
    let mut g = Grid::new();
    g.put_str(COLS as i16 - 2, 1, b"ABCD");
    assert_eq!(g.back[1 * COLS + (COLS - 2)], b'A');
    assert_eq!(g.back[1 * COLS + (COLS - 1)], b'B');
    assert!(g.back[2 * COLS..].iter().all(|&c| c == BLANK));
}

#[test]
fn diff_emits_one_run_for_contiguous_changes() {
    let mut g = Grid::new();
    g.put_str(4, 2, b"Hello");
    assert_eq!(runs(&mut g), [(2, 4, b"Hello".to_vec())]);
}

#[test]
fn diff_splits_runs_on_unchanged_cells() {
    let mut g = Grid::new();
    g.put(0, 0, b'A');
    g.put(2, 0, b'B');
    assert_eq!(runs(&mut g), [(0, 0, b"A".to_vec()), (0, 2, b"B".to_vec())]);
}

#[test]
fn diff_does_not_merge_across_rows() {
    let mut g = Grid::new();
    for x in 0..COLS as i16 {
        g.put(x, 0, b'#');
    }
    g.put(0, 1, b'#');
    let r = runs(&mut g);
    assert_eq!(r.len(), 2);
    assert_eq!((r[0].0, r[0].1, r[0].2.len()), (0, 0, COLS));
    assert_eq!(r[1], (1, 0, b"#".to_vec()));
}

#[test]
fn flush_advances_front_and_is_idempotent() {
    let mut g = Grid::new();
    g.put_str(1, 1, b"hi");
    let first = runs(&mut g);
    assert_eq!(first, [(1, 1, b"hi".to_vec())]);
    assert!(runs(&mut g).is_empty());
    assert_eq!(&g.front[1 * COLS + 1..1 * COLS + 3], b"hi");
}

#[test]
fn diff_detects_a_cleared_cell() {
    let mut g = Grid::new();
    g.put(5, 5, b'@');
    let _ = runs(&mut g);
    g.clear_back();
    assert_eq!(runs(&mut g), [(5, 5, vec![BLANK])]);
}

#[test]
fn glyphs_are_drawn_over_text() {
    let mut buffers = Buffers::new();
    let texts = vec![TextItem {
        screen: DsScreen::Top,
        pos: TilePos::new(0, 0),
        text: DsText::new(String::from("abc")),
    }];
    let glyphs = vec![
        GlyphItem { screen: DsScreen::Top, pos: TilePos::new(1, 0), glyph: Glyph(b'*') },
        GlyphItem { screen: DsScreen::Bottom, pos: TilePos::new(2, 1), glyph: Glyph(b'@') },
    ];
    let (top, bottom) = buffers.render(&glyphs, &texts);
    let drawn: Vec<(usize, usize, Vec<u8>)> =
        top.into_iter().map(|r| (r.row, r.col, r.bytes)).collect();
    assert_eq!(drawn, [(0, 0, b"a*c".to_vec())]);
    assert_eq!(bottom.len(), 1);
    assert_eq!((bottom[0].row, bottom[0].col), (1, 2));
    // Nothing moved: nothing is drawn again.
    let (top, bottom) = buffers.render(&glyphs, &texts);
    assert!(top.is_empty() && bottom.is_empty());
}

#[test]
fn epoch_is_1970_01_01_thursday() {
    let c = WallClock::from_unix(0);
    assert_eq!(
        (c.year, c.month, c.day, c.hour, c.minute, c.second, c.weekday),
        (1970, 1, 1, 0, 0, 0, 4),
    );
}

#[test]
fn decomposes_y2k() {
    let c = WallClock::from_unix(946_684_800);
    assert_eq!(
        (c.year, c.month, c.day, c.hour, c.minute, c.second, c.weekday),
        (2000, 1, 1, 0, 0, 0, 6),
    );
}

#[test]
fn decomposes_known_modern_timestamp() {
    let c = WallClock::from_unix(1_780_883_694);
    assert_eq!(
        (c.year, c.month, c.day, c.hour, c.minute, c.second, c.weekday),
        (2026, 6, 8, 1, 54, 54, 1),
    );
}

#[test]
fn last_second_of_day_and_first_second_of_next() {
    let end = WallClock::from_unix(86_399);
    assert_eq!(
        (end.year, end.month, end.day, end.hour, end.minute, end.second),
        (1970, 1, 1, 23, 59, 59),
    );
    let next = WallClock::from_unix(86_400);
    assert_eq!(
        (next.year, next.month, next.day, next.hour, next.minute, next.second),
        (1970, 1, 2, 0, 0, 0),
    );
}

#[test]
fn leap_day_2024_02_29() {
    let c = WallClock::from_unix(1_709_208_000);
    assert_eq!((c.year, c.month, c.day, c.hour), (2024, 2, 29, 12));
}

#[test]
fn pre_epoch_pulls_day_back_correctly() {
    let c = WallClock::from_unix(-1);
    assert_eq!(
        (c.year, c.month, c.day, c.hour, c.minute, c.second, c.weekday),
        (1969, 12, 31, 23, 59, 59, 3),
    );
}

#[test]
fn default_is_unix_epoch() {
    assert_eq!(WallClock::default(), WallClock::from_unix(0));
}

#[test]
fn slot_path_joins_with_extension() {
    assert_eq!(
        slot_path("fat:/bevy-ds/", "save_0").as_deref(),
        Some("fat:/bevy-ds/save_0.sav"),
    );
}

#[test]
fn slot_path_inserts_missing_separator() {
    assert_eq!(
        slot_path("fat:/bevy-ds", "save_0").as_deref(),
        Some("fat:/bevy-ds/save_0.sav"),
    );
}

#[test]
fn slot_path_rejects_traversal() {
    assert_eq!(slot_path("fat:/bevy-ds/", "../escape"), None);
    assert_eq!(slot_path("fat:/bevy-ds/", "sub/dir"), None);
    assert_eq!(slot_path("fat:/bevy-ds/", "back\\slash"), None);
    assert_eq!(slot_path("fat:/bevy-ds/", ".."), None);
    assert_eq!(slot_path("fat:/bevy-ds/", "."), None);
}

#[test]
fn slot_path_rejects_empty_and_nul() {
    assert_eq!(slot_path("fat:/bevy-ds/", ""), None);
    assert_eq!(slot_path("fat:/bevy-ds/", "with\0nul"), None);
}

#[test]
fn slot_path_accepts_alphanumeric_and_punct() {
    for name in ["a", "save_0", "high.scores", "level-3", "ABC", "1234"] {
        assert!(slot_path("fat:/bevy-ds/", name).is_some(), "{name}");
    }
}

#[test]
fn storage_status_is_ready_only_for_ready() {
    assert!(StorageStatus::Ready.is_ready());
    assert!(!StorageStatus::Unavailable.is_ready());
}

#[test]
fn storage_requests() {
    let ready = SaveStorage::new(None, StorageStatus::Ready);
    assert_eq!(ready.base_dir, DEFAULT_BASE_DIR);
    assert_eq!(ready.status(), StorageStatus::Ready);
    assert_eq!(ready.target("a").as_deref(), Some("fat:/bevy-ds/a.sav"));
    assert_eq!(ready.target("../a"), None);
    let gone = SaveStorage::new(Some(String::from("fat:/game")), StorageStatus::Unavailable);
    assert_eq!(gone.target("a"), None);
    assert_eq!(gone.path_for("a").as_deref(), Some("fat:/game/a.sav"));
    assert!(!is_valid_slot(".."));
    assert!(is_valid_slot("..."));
    assert_eq!(mount_dir("fat:/game//"), "fat:/game");
    assert_eq!(mount_dir("/"), "");
    assert_eq!(status_after_mount(true, false, true), StorageStatus::Ready);
    assert_eq!(status_after_mount(true, true, false), StorageStatus::Ready);
    assert_eq!(status_after_mount(true, false, false), StorageStatus::Unavailable);
    assert_eq!(status_after_mount(false, true, true), StorageStatus::Unavailable);
    assert_eq!(read_result(Some(2), vec![1, 2], true), Some(vec![1, 2]));
    assert_eq!(read_result(Some(3), vec![1, 2], true), None);
    assert_eq!(read_result(Some(2), vec![1, 2], false), None);
    assert_eq!(read_result(None, vec![], true), None);
    assert!(write_result(3, 3, true) && !write_result(3, 2, true) && !write_result(3, 3, false));
    assert!(delete_result(true, true) && delete_result(false, false) && !delete_result(false, true));
}

#[test]
fn every_button_is_mapped_exactly_once() {
    assert_eq!(DsButton::ALL.len(), 12);
    for i in 0..DsButton::ALL.len() {
        for j in (i + 1)..DsButton::ALL.len() {
            assert_ne!(DsButton::ALL[i].0, DsButton::ALL[j].0);
        }
    }
}

#[test]
fn key_masks_are_single_distinct_bits() {
    let mut seen = 0u32;
    for (_, mask) in DsButton::ALL {
        assert!(mask != 0, "mask must be non-zero");
        assert_eq!(mask & (mask - 1), 0, "mask must be a single bit");
        assert_eq!(seen & mask, 0, "masks must be disjoint");
        seen |= mask;
    }
}

#[test]
fn handedness_defaults_to_right() {
    assert_eq!(Handedness::default(), Handedness::Right);
}

#[test]
fn cluster_is_dpad_when_right_handed() {
    let h = Handedness::Right;
    assert_eq!(Cluster::Up.button(h), DsButton::Up);
    assert_eq!(Cluster::Down.button(h), DsButton::Down);
    assert_eq!(Cluster::Left.button(h), DsButton::Left);
    assert_eq!(Cluster::Right.button(h), DsButton::Right);
}

#[test]
fn cluster_mirrors_to_abxy_diamond_when_left_handed() {
    let h = Handedness::Left;
    assert_eq!(Cluster::Up.button(h), DsButton::X);
    assert_eq!(Cluster::Down.button(h), DsButton::B);
    assert_eq!(Cluster::Left.button(h), DsButton::Y);
    assert_eq!(Cluster::Right.button(h), DsButton::A);
}

#[test]
fn shoulders_swap_with_handedness() {
    assert_eq!(Shoulder::Primary.button(Handedness::Right), DsButton::L);
    assert_eq!(Shoulder::Secondary.button(Handedness::Right), DsButton::R);
    assert_eq!(Shoulder::Primary.button(Handedness::Left), DsButton::R);
    assert_eq!(Shoulder::Secondary.button(Handedness::Left), DsButton::L);
}

#[test]
fn mirror_is_a_bijection_per_handedness() {
    for h in [Handedness::Right, Handedness::Left] {
        let mapped = [
            Cluster::Up.button(h),
            Cluster::Down.button(h),
            Cluster::Left.button(h),
            Cluster::Right.button(h),
        ];
        for i in 0..4 {
            for j in (i + 1)..4 {
                assert_ne!(mapped[i], mapped[j], "collision under {h:?}");
            }
        }
    }
}

#[test]
fn directional_masks_match_libnds() {
    let mask = |b: DsButton| DsButton::ALL.iter().find(|(x, _)| *x == b).unwrap().1;
    assert_eq!(mask(DsButton::Left), KEY_LEFT);
    assert_eq!(mask(DsButton::Right), KEY_RIGHT);
    assert_eq!(mask(DsButton::Up), KEY_UP);
    assert_eq!(mask(DsButton::Down), KEY_DOWN);
}

fn pos(px: u16, py: u16) -> TouchPos {
    TouchPos { px, py }
}

#[test]
fn touch_down_from_idle_starts() {
    let here = pos(40, 90);
    let (event, next) = diff_touch(None, Some(here));
    assert_eq!(event, Some((TouchPhase::Started, here)));
    assert_eq!(next, Some(here));
}

#[test]
fn touch_move_while_held_reports_new_position() {
    let from = pos(40, 90);
    let to = pos(41, 92);
    let (event, next) = diff_touch(Some(from), Some(to));
    assert_eq!(event, Some((TouchPhase::Moved, to)));
    assert_eq!(next, Some(to));
}

#[test]
fn touch_held_still_emits_nothing() {
    let here = pos(40, 90);
    let (event, next) = diff_touch(Some(here), Some(here));
    assert_eq!(event, None);
    assert_eq!(next, Some(here));
}

#[test]
fn touch_release_ends_at_last_position() {
    let last = pos(40, 90);
    let (event, next) = diff_touch(Some(last), None);
    assert_eq!(event, Some((TouchPhase::Ended, last)));
    assert_eq!(next, None);
}

#[test]
fn touch_idle_stays_idle() {
    let (event, next) = diff_touch(None, None);
    assert_eq!(event, None);
    assert_eq!(next, None);
}

#[test]
fn touch_is_read_only_while_the_pen_is_down() {
    assert_eq!(touch_reading(KEY_TOUCH | KEY_UP, 3, 4), Some(pos(3, 4)));
    assert_eq!(touch_reading(KEY_UP, 3, 4), None);
}

#[test]
fn keys_drive_the_press_state() {
    let mut buttons = ButtonInput::<DsButton>::default();
    read_keys(&mut buttons, KEY_UP | KEY_LEFT);
    assert!(buttons.pressed(DsButton::Up) && buttons.just_pressed(DsButton::Up));
    assert!(buttons.pressed(DsButton::Left) && !buttons.pressed(DsButton::A));
    assert!(!buttons.just_released(DsButton::Up));
    // Held: pressed, but no longer just pressed. Let go: just released.
    read_keys(&mut buttons, KEY_UP | KEY_DOWN);
    assert!(buttons.pressed(DsButton::Up) && !buttons.just_pressed(DsButton::Up));
    assert!(buttons.just_pressed(DsButton::Down));
    assert!(!buttons.pressed(DsButton::Left) && buttons.just_released(DsButton::Left));
    read_keys(&mut buttons, 0);
    assert_eq!(buttons.get_pressed().count(), 0);
    assert!(buttons.just_released(DsButton::Up) && buttons.just_released(DsButton::Down));
    assert!(!buttons.just_released(DsButton::Left));
    for (button, mask) in DsButton::ALL {
        read_keys(&mut buttons, mask);
        assert_eq!(buttons.get_pressed().copied().collect::<Vec<_>>(), vec![button]);
    }
}

#[test]
fn effects_load_exactly_once() {
    let mut loaded = LoadedEffects::default();
    assert!(loaded.needs_load(7), "first sight should request a load");
    assert!(!loaded.needs_load(7), "second sight should not");
    assert!(loaded.is_loaded(7));
    assert!(!loaded.is_loaded(8));
    assert!(loaded.needs_load(8));
}

#[test]
fn clear_forgets_loaded_effects() {
    let mut loaded = LoadedEffects::default();
    loaded.needs_load(1);
    loaded.clear();
    assert!(!loaded.is_loaded(1));
    assert!(loaded.needs_load(1), "after clear, load is requested again");
}

fn vol(v: f32) -> F32Bits {
    F32Bits(v.to_bits())
}

#[test]
fn music_is_brought_in_line() {
    let mut loaded = LoadedEffects::default();
    let mut music = Music::default();
    assert!(!music.is_playing());
    assert_eq!(music.volume(), vol(1.0));
    assert_eq!(music.drive(true, &mut loaded), MusicStep::Nothing);
    music.play(SoundId(4));
    // Nothing happens before the bank is mounted.
    assert_eq!(music.drive(Audio::default().ready, &mut loaded), MusicStep::Nothing);
    assert_eq!(
        music.drive(true, &mut loaded),
        MusicStep::Start { cancel: None, load: true, sound: SoundId(4), volume: vol(1.0) }
    );
    music.started(SoundId(4), 11);
    assert!(music.is_playing());
    assert_eq!(music.drive(true, &mut loaded), MusicStep::Nothing);
    music.set_volume(vol(0.25));
    assert_eq!(
        music.drive(true, &mut loaded),
        MusicStep::SetVolume { handle: 11, volume: vol(0.25) }
    );
    assert_eq!(music.drive(true, &mut loaded), MusicStep::Nothing);
    // Another track replaces it; going back does not load again.
    music.play(SoundId(5));
    assert_eq!(
        music.drive(true, &mut loaded),
        MusicStep::Start { cancel: Some(11), load: true, sound: SoundId(5), volume: vol(0.25) }
    );
    music.started(SoundId(5), 12);
    music.play(SoundId(4));
    assert_eq!(
        music.drive(true, &mut loaded),
        MusicStep::Start { cancel: Some(12), load: false, sound: SoundId(4), volume: vol(0.25) }
    );
    music.started(SoundId(4), 13);
    music.stop();
    assert_eq!(music.drive(true, &mut loaded), MusicStep::Cancel { handle: 13 });
    assert!(!music.is_playing());
    assert_eq!(music.drive(true, &mut loaded), MusicStep::Nothing);
}

#[test]
fn effects_are_loaded_before_they_are_first_played() {
    let mut loaded = LoadedEffects::default();
    let a = PlaySfx::new(SoundId(1));
    let b = PlaySfx::new(SoundId(2)).with_volume(vol(0.5)).with_panning(vol(0.0));
    assert_eq!((a.volume, a.panning), (vol(1.0), vol(0.5)));
    assert_eq!(play_sfx(false, &mut loaded, &[a, b]), vec![]);
    assert_eq!(
        play_sfx(true, &mut loaded, &[a, b, a]),
        vec![(true, a), (true, b), (false, a)]
    );
    assert_eq!(play_sfx(true, &mut loaded, &[b]), vec![(false, b)]);
}

#[test]
fn brightness_registers() {
    assert_eq!(master_bright_bits(0), 0);
    assert_eq!(master_bright_bits(16), (1 << 14) | 16);
    assert_eq!(master_bright_bits(100), (1 << 14) | 16);
    assert_eq!(master_bright_bits(-5), (2 << 14) | 5);
    assert_eq!(master_bright_bits(-128), (2 << 14) | 16);
    assert_eq!(MasterBright { top: 1, bottom: -1 }.registers(), ((1 << 14) | 1, (2 << 14) | 1));
}
