//! What the parts of the running program do, stated of their inputs and results.

use crate::bg::asset::{LoadedBitmap, LoadedTile};
use crate::bg::layers::{
    after_tile_load, bitmap_upload, pixel_offset, scroll_of, tile_upload, with_scroll, TileSlot,
    TileUpload,
};
use crate::bytes::{u16_at, u16s_at};
use crate::clock::nanos_of;
use crate::perfread::blob::Blob;
use crate::perfread::stats::{ascending, percentile_idx, percentile_of, total, Stats};
use crate::rtc::{day_number, days_before_month, leaps_through, month_days, shows, WallClock};
use crate::save::{as_dir, mount_dir, slot_path, trimmed};
use crate::scene::asset::SceneData;
use crate::bake::levels::zone_path;
use crate::gpu::display_list::ASSET_EXT;
use crate::scene::paths::{
    level_space_path, level_space_text, mesh_path, mesh_text, plan_of, spawn, SpawnPlan,
};
use crate::scene::wire::points_of;
use crate::sprite::asset::LoadedSprite;
use crate::sprite::engine::{
    bank_colors, entry_of, frame_entries, live, load_plan, size_code_for, submit_sprites, take_bank,
    ImageKey, OamEntry, Sprite, SpriteAssets, SpriteEntry, SpriteUpload,
};
use crate::text::{
    blank_screen, composed, on_grid, stamped_run, text_bytes, with_glyphs, with_texts, GlyphItem,
    TextItem,
};
use crate::video::{master_bright_bits, DsScreen};
use crate::input::{diff_touch, touch_reading, DsButton, TouchPhase, TouchPos};
use vstd::math::abs;
use vstd::prelude::*;
use vstd::utf8::encode_utf8;

verus! {

/// A run of text fills the cells of its row from its first column on, each with the
/// byte that falls there; what falls beside the row is lost, and all other cells stay.
pub proof fn law_text_fills_its_cells(
    cells: Seq<u8>,
    x: int,
    y: int,
    bytes: Seq<u8>,
    col: int,
    row: int,
)
    requires
        cells.len() == 768,
        0 <= col < 32,
        0 <= row < 24,
    ensures
        stamped_run(cells, x, y, bytes).len() == 768,
        stamped_run(cells, x, y, bytes)[32 * row + col] == if row == y && x <= col < x
            + bytes.len() {
            bytes[col - x]
        } else {
            cells[32 * row + col]
        },
    decreases bytes.len(),
{
    if bytes.len() > 0 {
        let init = bytes.drop_last();
        law_text_fills_its_cells(cells, x, y, init, col, row);
        let at = x + bytes.len() - 1;
        if on_grid(at, y) {
            assert(y * 32 + at == 32 * row + col <==> (row == y && at == col));
        }
    }
}

proof fn lemma_texts_elsewhere(cells: Seq<u8>, texts: Seq<TextItem>, t: TextItem, screen: DsScreen)
    ensures
        t.screen != screen ==> with_texts(cells, texts.push(t), screen) == with_texts(
            cells,
            texts,
            screen,
        ),
        t.screen == screen ==> with_texts(cells, texts.push(t), screen) == stamped_run(
            with_texts(cells, texts, screen),
            t.pos.x as int,
            t.pos.y as int,
            text_bytes(t),
        ),
{
    assert(texts.push(t).drop_last() =~= texts);
}

proof fn lemma_screen_len(texts: Seq<TextItem>, screen: DsScreen)
    ensures
        with_texts(blank_screen(), texts, screen).len() == 768,
    decreases texts.len(),
{
    if texts.len() > 0 {
        lemma_screen_len(texts.drop_last(), screen);
        let t = texts.last();
        law_text_fills_its_cells(
            with_texts(blank_screen(), texts.drop_last(), screen),
            t.pos.x as int,
            t.pos.y as int,
            text_bytes(t),
            0,
            0,
        );
    }
}

/// The text that is drawn last shows on its own screen, over the texts before it, and
/// changes no cell that it does not cover. On the other screen nothing of it shows.
pub proof fn law_last_text_shows(
    texts: Seq<TextItem>,
    t: TextItem,
    screen: DsScreen,
    col: int,
    row: int,
)
    requires
        0 <= col < 32,
        0 <= row < 24,
    ensures
        ({
            let none = Seq::<GlyphItem>::empty();
            let with = composed(texts.push(t), none, screen);
            let without = composed(texts, none, screen);
            let bytes = encode_utf8(t.text.0@);
            with[32 * row + col] == if t.screen == screen && row == t.pos.y && t.pos.x <= col
                < t.pos.x + bytes.len() {
                bytes[col - t.pos.x]
            } else {
                without[32 * row + col]
            }
        }),
{
    let cells = with_texts(blank_screen(), texts, screen);
    lemma_texts_elsewhere(blank_screen(), texts, t, screen);
    lemma_screen_len(texts, screen);
    law_text_fills_its_cells(cells, t.pos.x as int, t.pos.y as int, text_bytes(t), col, row);
}

/// A screen without texts and characters is blank.
pub proof fn law_empty_screen_is_blank(screen: DsScreen, i: int)
    requires
        0 <= i < 768,
    ensures
        composed(Seq::<TextItem>::empty(), Seq::<GlyphItem>::empty(), screen)[i] == 32,
{
}

/// A character shows in its own cell of its own screen and nowhere else.
pub proof fn law_glyph_changes_its_cell(
    texts: Seq<TextItem>,
    glyphs: Seq<GlyphItem>,
    g: GlyphItem,
    screen: DsScreen,
    col: int,
    row: int,
)
    requires
        0 <= col < 32,
        0 <= row < 24,
    ensures
        composed(texts, glyphs.push(g), screen)[32 * row + col] == if g.screen == screen && g.pos.x
            == col && g.pos.y == row {
            g.glyph.0
        } else {
            composed(texts, glyphs, screen)[32 * row + col]
        },
{
    let under = with_texts(blank_screen(), texts, screen);
    lemma_screen_len(texts, screen);
    lemma_glyph_len(under, glyphs, screen);
    assert(glyphs.push(g).drop_last() =~= glyphs);
}

proof fn lemma_glyph_len(cells: Seq<u8>, glyphs: Seq<GlyphItem>, screen: DsScreen)
    requires
        cells.len() == 768,
    ensures
        with_glyphs(cells, glyphs, screen).len() == 768,
    decreases glyphs.len(),
{
    if glyphs.len() > 0 {
        lemma_glyph_len(cells, glyphs.drop_last(), screen);
        let g = glyphs.last();
        if on_grid(g.pos.x as int, g.pos.y as int) {
            assert(0 <= g.pos.y * 32 + g.pos.x < 768);
        }
    }
}

/// The image is loaded.
pub open spec fn is_loaded(assets: SpriteAssets, key: ImageKey) -> bool {
    exists|k: int| 0 <= k < assets.entries@.len() && (#[trigger] assets.entries@[k]).key == key
}

/// How many of the first `n` sprites have an image that is loaded.
pub open spec fn loaded_before(sprites: Seq<Sprite>, assets: SpriteAssets, n: int) -> int
    decreases n,
{
    if n <= 0 {
        0
    } else {
        loaded_before(sprites, assets, n - 1) + if is_loaded(assets, sprites[n - 1].image) {
            1int
        } else {
            0
        }
    }
}

proof fn lemma_entry(entries: Seq<SpriteEntry>, key: ImageKey)
    ensures
        entry_of(entries, key) is Some <==> exists|k: int|
            0 <= k < entries.len() && (#[trigger] entries[k]).key == key,
        entry_of(entries, key) matches Some(e) ==> e.key == key && entries.contains(e),
    decreases entries.len(),
{
    if entries.len() > 0 && entries[0].key != key {
        let rest = entries.skip(1);
        lemma_entry(rest, key);
        if entry_of(rest, key) is Some {
            let k = choose|k: int| 0 <= k < rest.len() && (#[trigger] rest[k]).key == key;
            assert(entries[k + 1].key == key);
            let e = entry_of(rest, key)->0;
            let j = choose|j: int| 0 <= j < rest.len() && rest[j] == e;
            assert(entries[j + 1] == e);
        }
        if exists|k: int| 0 <= k < entries.len() && (#[trigger] entries[k]).key == key {
            let k = choose|k: int| 0 <= k < entries.len() && (#[trigger] entries[k]).key == key;
            assert(rest[k - 1].key == key);
        }
    }
    if entries.len() > 0 && entries[0].key == key {
        assert(entries.contains(entries[0]));
    }
}

proof fn lemma_live(sprites: Seq<Sprite>, assets: SpriteAssets, p: int)
    requires
        0 <= p <= sprites.len(),
    ensures
        live(sprites, assets).len() == loaded_before(sprites, assets, sprites.len() as int),
        0 <= loaded_before(sprites, assets, p) <= live(sprites, assets).len(),
        p < sprites.len() && is_loaded(assets, sprites[p].image) ==> {
            let k = loaded_before(sprites, assets, p);
            &&& k < live(sprites, assets).len()
            &&& live(sprites, assets)[k].0 == sprites[p]
            &&& Some(live(sprites, assets)[k].1) == assets.lookup(sprites[p].image)
        },
    decreases sprites.len(),
{
    if sprites.len() > 0 {
        let init = sprites.drop_last();
        let n = init.len() as int;
        let q = if p > n {
            n
        } else {
            p
        };
        lemma_live(init, assets, q);
        lemma_before_init(sprites, assets, n);
        lemma_before_init(sprites, assets, q);
        lemma_entry(assets.entries@, sprites.last().image);
    }
}

proof fn lemma_before_init(sprites: Seq<Sprite>, assets: SpriteAssets, n: int)
    requires
        sprites.len() > 0,
        0 <= n < sprites.len(),
    ensures
        loaded_before(sprites.drop_last(), assets, n) == loaded_before(sprites, assets, n),
    decreases n,
{
    if n > 0 {
        lemma_before_init(sprites, assets, n - 1);
    }
}

/// A sprite whose image is loaded takes the next slot, in the order of the sprites, as
/// long as there are slots. It stands there at its own position with its image's
/// palette, size and tiles. As many slots are in use as sprites are shown.
pub proof fn law_sprite_takes_the_next_slot(
    assets: &SpriteAssets,
    sprites: &Vec<Sprite>,
    high_water: u8,
    r: (Vec<OamEntry>, u8),
    p: int,
    e: int,
)
    requires
        assets.wf(),
        call_ensures(submit_sprites, (assets, sprites, high_water), r),
        0 <= p < sprites@.len(),
        0 <= e < assets.entries@.len(),
        assets.entries@[e].key == sprites@[p].image,
    ensures
        ({
            let k = loaded_before(sprites@, *assets, p);
            k < 128 ==> {
                let shown = r.0@[k];
                &&& shown.id == k
                &&& shown.x == sprites@[p].x
                &&& shown.y == sprites@[p].y
                &&& shown.palette == assets.entries@[e].palette_bank
                &&& shown.size == assets.entries@[e].size_code
                &&& shown.gfx == assets.entries@[e].gfx
                &&& !shown.hide
                &&& k < r.1
            }
        }),
        r.1 == if loaded_before(sprites@, *assets, sprites@.len() as int) > 128 {
            128
        } else {
            loaded_before(sprites@, *assets, sprites@.len() as int)
        },
{
    lemma_live(sprites@, *assets, p);
    lemma_entry(assets.entries@, sprites@[p].image);
    let found = assets.lookup(sprites@[p].image)->0;
    let j = choose|j: int| 0 <= j < assets.entries@.len() && assets.entries@[j] == found;
    assert(assets.entries@[j].key == assets.entries@[e].key);
    assert(j == e);
    let k = loaded_before(sprites@, *assets, p);
    if k < 128 {
        assert(frame_entries(sprites@, *assets, high_water)[k] == r.0@[k]);
    }
}

/// A square of eight, sixteen, thirty-two or sixty-four has a size code, and nothing
/// else has: its top two bits say how often eight is doubled, the rest how much tile
/// memory it takes, in steps of thirty-two pixels.
pub proof fn law_size_code_tells_the_side(width: u16, height: u16, r: Option<i32>)
    requires
        call_ensures(size_code_for, (width, height), r),
    ensures
        r is Some <==> width == height && (width == 8 || width == 16 || width == 32 || width == 64),
        r matches Some(c) ==> {
            &&& c as int % 0x4000 == width * height / 32
            &&& c as int / 0x4000 == 0 ==> width == 8
            &&& c as int / 0x4000 == 1 ==> width == 16
            &&& c as int / 0x4000 == 2 ==> width == 32
            &&& c as int / 0x4000 == 3 ==> width == 64
            &&& 0 <= c < 0x1_0000
        },
{
}

/// A bank takes the first sixteen colours of a palette, in order.
pub proof fn law_bank_takes_the_first_colours(palette: &Vec<u16>, r: Vec<u16>, i: int)
    requires
        call_ensures(take_bank, (palette,), r),
    ensures
        r@.len() == if palette@.len() < 16 {
            palette@.len()
        } else {
            16
        },
        0 <= i < r@.len() ==> r@[i] == palette@[i],
{
}

/// Halfword `k` of some bytes, the low byte first.
pub open spec fn half_word(s: Seq<u8>, k: int) -> int {
    s[2 * k] + 0x100 * s[2 * k + 1]
}

/// The tiles of an image are read as halfwords and its palette goes to its own bank of
/// sixteen.
pub proof fn law_sprite_is_loaded_into_its_bank(
    loaded: &LoadedSprite,
    bank: u8,
    r: Option<SpriteUpload>,
    k: int,
)
    requires
        call_ensures(load_plan, (loaded, bank), r),
        r is Some,
        0 <= k < loaded.gfx@.len() / 2,
    ensures
        r->0.tiles@.len() == loaded.gfx@.len() / 2,
        r->0.tiles@[k] == half_word(loaded.gfx@, k),
        r->0.palette_offset == 16 * bank,
        r->0.palette@ == bank_colors(loaded.palette@),
{
    lemma_half_word(loaded.gfx@, k);
}

proof fn lemma_half_word(s: Seq<u8>, k: int)
    requires
        0 <= k < s.len() / 2,
    ensures
        u16s_at(s, 0, (s.len() / 2) as nat)[k] == half_word(s, k),
{
    assert(u16s_at(s, 0, (s.len() / 2) as nat)[k] == u16_at(s, 2 * k));
}

/// Map entries keep their tile and their flips and move to the palette bank of the tile
/// layers, where the first sixteen colours go; the tiles are read as halfwords.
pub proof fn law_tile_map_moves_to_its_bank(loaded: &LoadedTile, r: TileUpload, k: int)
    requires
        call_ensures(tile_upload, (loaded,), r),
    ensures
        r.gfx@.len() == loaded.gfx@.len() / 2,
        r.map@.len() == loaded.map@.len() / 2,
        0 <= k < r.gfx@.len() ==> r.gfx@[k] == half_word(loaded.gfx@, k),
        0 <= k < r.map@.len() ==> r.map@[k] as int % 0x1000 == half_word(loaded.map@, k) % 0x1000
            && r.map@[k] as int / 0x1000 == 1,
        r.palette_offset == 16,
        r.palette@ == bank_colors(loaded.palette@),
{
    if 0 <= k < r.gfx@.len() {
        lemma_half_word(loaded.gfx@, k);
    }
    if 0 <= k < r.map@.len() {
        lemma_half_word(loaded.map@, k);
    }
}

/// The pixel in column `x` of row `y` goes to column `x` of row `y` of a screen that is
/// 256 pixels wide.
pub proof fn law_bitmap_keeps_rows_and_columns(
    loaded: &LoadedBitmap,
    r: Vec<(u64, u16)>,
    x: int,
    y: int,
)
    requires
        loaded.width > 0,
        loaded.pixels@.len() <= u32::MAX,
        call_ensures(bitmap_upload, (loaded,), r),
        0 <= x < loaded.width,
        0 <= y,
        (y + 1) * loaded.width <= loaded.pixels@.len(),
    ensures
        ({
            let p = y * loaded.width + x;
            &&& 0 <= p < r@.len()
            &&& r@[p].0 == 256 * y + x
            &&& r@[p].1 == loaded.pixels@[p]
        }),
{
    let w = loaded.width as int;
    let n = loaded.pixels@.len() as int;
    let p = y * w + x;
    vstd::arithmetic::div_mod::lemma_fundamental_div_mod_converse(p, w, y, x);
    let q = n / w;
    vstd::arithmetic::div_mod::lemma_fundamental_div_mod(n, w);
    vstd::arithmetic::div_mod::lemma_mod_bound(n, w);
    let left = n % w;
    assert(q >= y + 1) by (nonlinear_arith)
        requires
            n == w * q + left,
            0 <= left < w,
            (y + 1) * w <= n,
    ;
    assert((y + 1) * w <= q * w && (y + 1) * w == y * w + w && 0 <= y * w && y <= y * w)
        by (nonlinear_arith)
        requires
            q >= y + 1,
            w > 0,
            y >= 0,
    ;
    assert(r@[p] == (pixel_offset(p, w) as u64, loaded.pixels@[p]));
}

/// A scroll that was asked for is the scroll of the layer, loaded or not, and comes
/// through a load, after which it is to be written.
pub proof fn law_scroll_is_kept(slot: TileSlot, to: (i16, i16), bg_id: i32)
    requires
        !(slot is Empty),
    ensures
        scroll_of(with_scroll(slot, to)) == to,
        !(with_scroll(slot, to) is Empty),
        slot is Pending ==> {
            let loaded = after_tile_load(with_scroll(slot, to), Some(bg_id));
            &&& scroll_of(loaded) == to
            &&& loaded matches TileSlot::Loaded { bg_id: id, flushed_scroll, .. } && id == bg_id && (
            flushed_scroll == to ==> to == (i16::MIN, i16::MIN))
        },
        slot is Pending ==> after_tile_load(slot, None) is Empty,
{
}

/// The register's low bits hold how far the screen is faded, sixteen at most, and its
/// top bits the way: one up, two down.
pub proof fn law_fade_goes_its_way(level: i8, r: u16)
    requires
        call_ensures(master_bright_bits, (level,), r),
    ensures
        r as int % 0x4000 == if abs(level as int) > 16 {
            16
        } else {
            abs(level as int) as int
        },
        r as int / 0x4000 == if level > 0 {
            1int
        } else if level < 0 {
            2
        } else {
            0
        },
{
}

/// The bit of the key state that a button is read from.
pub open spec fn key_bit(b: DsButton) -> u32 {
    match b {
        DsButton::A => 0,
        DsButton::B => 1,
        DsButton::Select => 2,
        DsButton::Start => 3,
        DsButton::Right => 4,
        DsButton::Left => 5,
        DsButton::Up => 6,
        DsButton::Down => 7,
        DsButton::R => 8,
        DsButton::L => 9,
        DsButton::X => 10,
        DsButton::Y => 11,
    }
}

/// A button is down exactly where its own bit of the key state is set.
pub proof fn law_button_reads_its_bit(b: DsButton, held: u32)
    ensures
        b.down_in(held) <==> (held >> key_bit(b)) & 1 == 1,
{
    let (m, k) = (b.mask(), key_bit(b));
    assert(m == 1u32 << k) by {
        assert(1u32 << 0u32 == 1 && 1u32 << 1u32 == 2 && 1u32 << 2u32 == 4 && 1u32 << 3u32 == 8
            && 1u32 << 4u32 == 16 && 1u32 << 5u32 == 32 && 1u32 << 6u32 == 64 && 1u32 << 7u32 == 128
            && 1u32 << 8u32 == 256 && 1u32 << 9u32 == 512 && 1u32 << 10u32 == 1024 && 1u32 << 11u32
            == 2048) by (bit_vector);
    }
    assert(held & m != 0 <==> (held >> k) & 1 == 1) by (bit_vector)
        requires
            m == 1u32 << k,
            k < 12,
    ;
}

/// The pen is read exactly while bit twelve of the key state is set, where it stands;
/// of two readings it is reported what changed between them.
pub proof fn law_pen_is_read_while_down(
    held: u32,
    px: u16,
    py: u16,
    r: Option<TouchPos>,
    prev: Option<TouchPos>,
    d: (Option<(TouchPhase, TouchPos)>, Option<TouchPos>),
)
    requires
        call_ensures(touch_reading, (held, px, py), r),
        call_ensures(diff_touch, (prev, r), d),
    ensures
        r is Some <==> (held >> 12) & 1 == 1,
        r matches Some(p) ==> p.px == px && p.py == py,
        d.1 == r,
        prev is None && r is Some ==> d.0 == Some((TouchPhase::Started, r->0)),
        prev is Some && r is None ==> d.0 == Some((TouchPhase::Ended, prev->0)),
        prev is Some && r is Some && prev != r ==> d.0 == Some((TouchPhase::Moved, r->0)),
        prev == r ==> d.0 is None,
{
    assert(held & 4096 != 0 <==> (held >> 12) & 1 == 1) by (bit_vector);
}

/// A second is this many ticks of the bus clock, and time goes on evenly.
pub proof fn law_clock_runs_at_the_bus(seconds: int, ticks: int)
    requires
        seconds >= 0,
        ticks >= 0,
    ensures
        nanos_of(33_513_982 * seconds) == 1_000_000_000 * seconds,
        nanos_of(ticks) * 33_513_982 <= 1_000_000_000 * ticks < (nanos_of(ticks) + 1) * 33_513_982,
{
}

/// Every fourth year has a day more, but of the hundreds only those that four divides:
/// four hundred years are a whole number of days, and a year's length follows the rule.
#[verifier::spinoff_prover]
#[verifier::rlimit(60)]
pub proof fn law_calendar_is_gregorian(year: int, month: int, day: int)
    requires
        1 <= month <= 12,
    ensures
        day_number(year + 1, 1, 1) - day_number(year, 1, 1) == if year % 400 == 0 || (year % 4 == 0
            && year % 100 != 0) {
            366int
        } else {
            365
        },
        day_number(year + 400, month, day) == day_number(year, month, day) + 146_097,
        day_number(year, month, day + 1) == day_number(year, month, day) + 1,
        month_days(year, month) == if month == 2 {
            day_number(year + 1, 1, 1) - day_number(year, 1, 1) - 337
        } else if month == 4 || month == 6 || month == 9 || month == 11 {
            30int
        } else {
            31
        },
{
    lemma_months_repeat(year, month);
    lemma_leaps(year);
    assert(days_before_month(year, 1) == 0);
    assert(days_before_month(year + 1, 1) == 0);
}

#[verifier::spinoff_prover]
proof fn lemma_leaps(year: int)
    ensures
        leaps_through(year) - leaps_through(year - 1) == if year % 400 == 0 || (year % 4 == 0 && year
            % 100 != 0) {
            1int
        } else {
            0
        },
        leaps_through(year + 399) == leaps_through(year - 1) + 97,
{
    lemma_step(year, 4, 100);
    lemma_step(year, 100, 4);
    lemma_step(year, 400, 1);
    lemma_multiples(year);
}

proof fn lemma_multiples(year: int)
    ensures
        year % 400 == 0 ==> year % 100 == 0,
        year % 100 == 0 ==> year % 4 == 0,
{
}

#[verifier::spinoff_prover]
proof fn lemma_step(year: int, d: int, n: int)
    requires
        d == 4 && n == 100 || d == 100 && n == 4 || d == 400 && n == 1,
    ensures
        year / d - (year - 1) / d == if year % d == 0 {
            1int
        } else {
            0
        },
        (year + 399) / d == (year - 1) / d + n,
{
    let z = year - 1;
    if d == 4 {
        assert(year / 4 - z / 4 == if year % 4 == 0 {
            1int
        } else {
            0
        });
        assert((z + 400) / 4 == z / 4 + 100);
    } else if d == 100 {
        assert(year / 100 - z / 100 == if year % 100 == 0 {
            1int
        } else {
            0
        });
        assert((z + 400) / 100 == z / 100 + 4);
    } else {
        assert(year / 400 - z / 400 == if year % 400 == 0 {
            1int
        } else {
            0
        });
        assert((z + 400) / 400 == z / 400 + 1);
    }
}

proof fn lemma_months_repeat(year: int, month: int)
    requires
        1 <= month <= 12,
    ensures
        days_before_month(year + 400, month) == days_before_month(year, month),
    decreases month,
{
    if month > 1 {
        lemma_months_repeat(year, month - 1);
    }
}

/// A second later the clock shows a second more; a day later it shows the same time on
/// the next day of the week.
#[verifier::spinoff_prover]
#[verifier::rlimit(60)]
pub proof fn law_clock_advances(secs: i64, a: WallClock, later: i64, b: WallClock)
    requires
        call_ensures(WallClock::from_unix, (secs,), a),
        call_ensures(WallClock::from_unix, (later,), b),
    ensures
        a.unix_secs == secs,
        later == secs + 1 && a.second < 59 ==> b.second == a.second + 1 && b.minute == a.minute
            && b.hour == a.hour && b.weekday == a.weekday,
        later == secs + 60 && a.minute < 59 ==> b.minute == a.minute + 1 && b.second == a.second
            && b.hour == a.hour && b.weekday == a.weekday,
        later == secs + 3600 && a.hour < 23 ==> b.hour == a.hour + 1 && b.minute == a.minute
            && b.second == a.second && b.weekday == a.weekday,
        later == secs + 86_400 ==> b.hour == a.hour && b.minute == a.minute && b.second == a.second
            && b.weekday as int == (a.weekday + 1) % 7,
{
    assert(shows(a, secs as int));
    assert(shows(b, later as int));
    let (d, t) = (secs as int / 86_400, secs as int % 86_400);
    let (e, u) = (later as int / 86_400, later as int % 86_400);
    let (h, m, s) = (a.hour as int, a.minute as int, a.second as int);
    let (i, n, r) = (b.hour as int, b.minute as int, b.second as int);
    lemma_later(secs as int, later as int, t);
    if later == secs + 86_400 {
        lemma_same_time(h, m, s, i, n, r);
    } else if later == secs + 3600 && a.hour < 23 {
        lemma_same_time(h + 1, m, s, i, n, r);
    } else if later == secs + 60 && a.minute < 59 {
        lemma_same_time(h, m + 1, s, i, n, r);
    } else if later == secs + 1 && a.second < 59 {
        lemma_same_time(h, m, s + 1, i, n, r);
    }
}

proof fn lemma_later(secs: int, later: int, t: int)
    requires
        t == secs % 86_400,
    ensures
        later == secs + 86_400 ==> later / 86_400 == secs / 86_400 + 1 && later % 86_400 == t,
        later == secs + 3600 && t < 82_800 ==> later / 86_400 == secs / 86_400 && later % 86_400
            == t + 3600,
        later == secs + 60 && t < 86_340 ==> later / 86_400 == secs / 86_400 && later % 86_400 == t
            + 60,
        later == secs + 1 && t < 86_399 ==> later / 86_400 == secs / 86_400 && later % 86_400 == t
            + 1,
{
}

proof fn lemma_same_time(h: int, m: int, s: int, i: int, n: int, r: int)
    requires
        0 <= m < 60 && 0 <= s < 60 && 0 <= n < 60 && 0 <= r < 60,
        3600 * h + 60 * m + s == 3600 * i + 60 * n + r,
    ensures
        h == i && m == n && s == r,
{
}

/// A slot has a file exactly where its name is not empty, not one or two dots, and holds
/// no slash, backslash or zero. The file is the directory, a slash unless it ends in
/// one, the name and the extension.
#[verifier::spinoff_prover]
#[verifier::rlimit(60)]
pub proof fn law_slot_file_is_named(base_dir: &str, slot: &str, r: Option<String>)
    requires
        call_ensures(slot_path, (base_dir, slot), r),
    ensures
        r is Some <==> slot@.len() > 0 && !(slot@.len() == 1 && slot@[0] == '.') && !(slot@.len()
            == 2 && slot@[0] == '.' && slot@[1] == '.') && !slot@.contains('/') && !slot@.contains(
            '\\',
        ) && !slot@.contains('\0'),
        r matches Some(p) ==> {
            let n = base_dir@.len() as int;
            let m = n + (if n > 0 && base_dir@[n - 1] == '/' {
                0int
            } else {
                1
            });
            &&& p@.take(n) == base_dir@
            &&& m > n ==> p@[n] == '/'
            &&& p@.subrange(m, m + slot@.len()) == slot@
            &&& p@.skip(m + slot@.len()) == ".sav"@
        },
{
    let s = slot@;
    if s.len() == 1 && s[0] == '.' {
        assert(s =~= seq!['.']);
    }
    if s.len() == 2 && s[0] == '.' && s[1] == '.' {
        assert(s =~= seq!['.', '.']);
    }
    if s == seq!['.'] {
        assert(s.len() == 1 && s[0] == '.');
    }
    if s == seq!['.', '.'] {
        assert(s.len() == 2 && s[0] == '.' && s[1] == '.');
    }
    if let Some(p) = r {
        let n = base_dir@.len() as int;
        let dir = as_dir(base_dir@);
        let m = dir.len() as int;
        assert(p@ == dir + s + ".sav"@);
        assert(p@.take(n) =~= base_dir@);
        assert(p@.subrange(m, m + s.len()) =~= s);
        assert(p@.skip(m + s.len()) =~= ".sav"@);
    }
}

/// The directory to make has no slash at its end, and only slashes were taken off it.
pub proof fn law_mount_dir_drops_slashes(base_dir: &str, r: String)
    requires
        call_ensures(mount_dir, (base_dir,), r),
    ensures
        r@.len() <= base_dir@.len(),
        r@ == base_dir@.take(r@.len() as int),
        r@.len() > 0 ==> r@.last() != '/',
        forall|i: int| r@.len() <= i < base_dir@.len() ==> #[trigger] base_dir@[i] == '/',
{
    lemma_trimmed(base_dir@);
}

proof fn lemma_trimmed(d: Seq<char>)
    ensures
        trimmed(d).len() <= d.len(),
        trimmed(d) == d.take(trimmed(d).len() as int),
        trimmed(d).len() > 0 ==> trimmed(d).last() != '/',
        forall|i: int| trimmed(d).len() <= i < d.len() ==> #[trigger] d[i] == '/',
    decreases d.len(),
{
    if d.len() > 0 && d.last() == '/' {
        lemma_trimmed(d.drop_last());
        assert(d.drop_last().take(trimmed(d).len() as int) =~= d.take(trimmed(d).len() as int));
        assert forall|i: int| trimmed(d).len() <= i < d.len() implies #[trigger] d[i] == '/' by {
            if i < d.len() - 1 {
                assert(d.drop_last()[i] == '/');
            }
        }
    } else {
        assert(d.take(d.len() as int) =~= d);
    }
}

/// What is spawned stands where its instance stands, turned and scaled as it is, with
/// its role, flags, material and waypoints, and draws the mesh of its name.
pub proof fn law_spawn_follows_the_instance(
    scene: &SceneData,
    r: Vec<SpawnPlan>,
    k: int,
    name: &str,
    file: Vec<u8>,
)
    requires
        call_ensures(spawn, (scene,), r),
        call_ensures(mesh_path, (name,), file),
        0 <= k < scene.instances@.len(),
    ensures
        ({
            let i = scene.instances@[k];
            let p = r@[k];
            &&& r@.len() == scene.instances@.len()
            &&& p.translation@ == i.pos@
            &&& p.rotation@ == i.rot@
            &&& p.scale@ == i.scale@
            &&& p.role@ == i.role@
            &&& p.flags == i.flags
            &&& p.material == i.material
            &&& p.mesh is None <==> i.mesh is None
            &&& (i.mesh matches Some(m) && m@ == name@) ==> p.mesh->0@ == file@
            &&& p.path is None <==> i.path@.len() == 0
            &&& p.path matches Some(v) ==> v@.len() == i.path@.len() && forall|j: int|
                0 <= j < v@.len() ==> (#[trigger] v@[j])@[0] == i.path@[j]@[0] && v@[j]@[1]
                    == i.path@[j]@[1]
        }),
{
    let i = scene.instances@[k];
    let p = r@[k];
    assert(plan_of(i, p));
    if let Some(v) = p.path {
        assert(points_of(v@).len() == points_of(i.path@).len());
        assert forall|j: int| 0 <= j < v@.len() implies (#[trigger] v@[j])@[0] == i.path@[j]@[0]
            && v@[j]@[1] == i.path@[j]@[1] by {
            assert(points_of(v@)[j] == points_of(i.path@)[j]);
        }
    }
}

/// A zone's scene is read from the file that the baked constant names, and a mesh from
/// the file that its model is compiled to, at the root; each path ends in a zero.
pub proof fn law_loader_looks_where_the_bake_wrote(
    level: &str,
    zone: &str,
    r: Vec<u8>,
    name: &str,
    m: Vec<u8>,
)
    requires
        call_ensures(level_space_path, (level, zone), r),
        call_ensures(mesh_path, (name,), m),
    ensures
        r@ == encode_utf8(zone_path(level@, zone@)).push(0),
        m@ == encode_utf8("nitro:/"@ + name@ + "."@ + ASSET_EXT@).push(0),
{
    reveal_strlit("nitro:/levels/");
    reveal_strlit("nitro:/");
    reveal_strlit("levels");
    reveal_strlit("/");
    reveal_strlit(".scene");
    reveal_strlit("scene");
    reveal_strlit(".");
    reveal_strlit(".dl");
    reveal_strlit("dl");
    assert("nitro:/levels/"@ =~= "nitro:/"@ + "levels"@ + "/"@);
    assert(".scene"@ =~= "."@ + "scene"@);
    assert(".dl"@ =~= "."@ + "dl"@);
    assert(level_space_text(level@, zone@) =~= zone_path(level@, zone@));
    assert(mesh_text(name@) =~= "nitro:/"@ + name@ + "."@ + ASSET_EXT@);
}

/// A percentile is the sample that has that share of all samples before it, rounded
/// down, and the last one where there is none further on.
pub proof fn law_percentile_has_its_share_before_it(n: usize, p: u32, r: usize)
    requires
        n > 0,
        p * n <= usize::MAX,
        call_ensures(percentile_idx, (n, p), r),
    ensures
        r < n,
        r == n - 1 || 100 * r <= p * n < 100 * (r + 1),
        100 * r <= p * n,
{
    assert(0 <= p * n) by (nonlinear_arith);
}

/// The figures of some samples: how many there are, the least of them, the one in the
/// middle of the sorted ones, the one with nineteen twentieths before it, and the sum.
pub proof fn law_figures_are_the_samples(blob: &Blob, r: Stats)
    requires
        blob.samples@.len() > 0,
        95 * blob.samples@.len() <= usize::MAX,
        total(blob.samples@) <= u64::MAX,
        call_ensures(Stats::from_blob, (blob,), r),
    ensures
        ({
            let s = ascending(blob.samples@);
            let n = blob.samples@.len() as int;
            &&& r.n == n
            &&& r.min_us == s[0]
            &&& r.p50_us == s[n / 2]
            &&& r.p95_us == s[19 * n / 20]
        }),
        r.sum_us == sum_from(blob.samples@, 0),
{
    let n = blob.samples@.len() as int;
    assert(50 * n / 100 == n / 2);
    assert(95 * n / 100 == 19 * n / 20);
    if n == 1 {
        assert(percentile_of(n, 50) == 0);
    }
    lemma_total(blob.samples@, blob.samples@.len() as int);
    lemma_sum(blob.samples@, 0, n);
    assert(blob.samples@.take(n) =~= blob.samples@);
}

/// The sum of the samples from `k` on.
pub open spec fn sum_from(s: Seq<u32>, k: int) -> int
    decreases s.len() - k,
{
    if k >= s.len() {
        0
    } else {
        s[k] + sum_from(s, k + 1)
    }
}

proof fn lemma_total(s: Seq<u32>, n: int)
    requires
        0 <= n <= s.len(),
    ensures
        0 <= total(s.take(n)),
    decreases n,
{
    if n > 0 {
        lemma_total(s, n - 1);
        assert(s.take(n).drop_last() =~= s.take(n - 1));
    }
}

proof fn lemma_sum(s: Seq<u32>, k: int, n: int)
    requires
        0 <= k <= n == s.len(),
    ensures
        sum_from(s, k) == total(s) - total(s.take(k)),
    decreases n - k,
{
    if k < n {
        lemma_sum(s, k + 1, n);
        assert(s.take(k + 1).drop_last() =~= s.take(k));
    } else {
        assert(s.take(k) =~= s);
    }
    if k == 0 {
        assert(s.take(0) =~= Seq::<u32>::empty());
    }
}

} // verus!
