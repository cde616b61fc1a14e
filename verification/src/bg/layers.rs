//! The background layers: what is asked for, what is loaded, and what loading
//! writes.
//!
//! Each screen has a tile layer; the top screen has a bitmap layer too. Setters only
//! note what is wanted. Once a frame pending images are loaded, layers that lost
//! their image are hidden, and changed scrolls are written.

use crate::bg::asset::{LoadedBitmap, LoadedTile};
use crate::bytes::{read_u16s, u16s_at};
use crate::sprite::engine::{bank_colors, take_bank};
use crate::video::DsScreen;
use vstd::prelude::*;

verus! {

/// Which engine drives a layer.
#[derive(Clone, Copy, Debug, PartialEq, Eq, Structural)]
pub enum BgEngine {
    Main,
    Sub,
}

/// The engine that drives a screen.
pub fn engine_for(screen: DsScreen) -> (r: BgEngine)
    ensures
        r == if screen == DsScreen::Top {
            BgEngine::Main
        } else {
            BgEngine::Sub
        },
{
    match screen {
        DsScreen::Top => BgEngine::Main,
        DsScreen::Bottom => BgEngine::Sub,
    }
}

/// Address of an engine's display control register.
pub fn display_control(engine: BgEngine) -> (r: u32)
    ensures
        r == if engine == BgEngine::Main {
            0x0400_0000u32
        } else {
            0x0400_1000
        },
{
    match engine {
        BgEngine::Main => 0x0400_0000,
        BgEngine::Sub => 0x0400_1000,
    }
}

/// A display control value with a layer turned on.
pub fn show_bg(control: u32, layer: u32) -> (r: u32)
    requires
        layer < 24,
    ensures
        r == control | (1u32 << ((8 + layer) as u32)),
{
    control | (1u32 << (8 + layer))
}

/// A display control value with a layer turned off.
pub fn hide_bg(control: u32, layer: u32) -> (r: u32)
    requires
        layer < 24,
    ensures
        r == control & !(1u32 << ((8 + layer) as u32)),
{
    control & !(1u32 << (8 + layer))
}

/// Showing then hiding a layer that was hidden gives the control value back.
pub proof fn law_hide_undoes_show(control: u32, layer: u32)
    requires
        layer < 24,
        control & (1u32 << ((8 + layer) as u32)) == 0,
    ensures
        (control | (1u32 << ((8 + layer) as u32))) & !(1u32 << ((8 + layer) as u32)) == control,
{
    let s = (8 + layer) as u32;
    assert((control | (1u32 << s)) & !(1u32 << s) == control) by (bit_vector)
        requires
            control & (1u32 << s) == 0,
    ;
}

/// Number of the tile layer.
pub const TILE_LAYER: u32 = 1;

/// Number of the bitmap layer.
pub const BITMAP_LAYER: u32 = 3;

/// A map entry's bank field counts palettes of 16; this is the bank of tile layers.
pub const PALETTE_BANK_TILE: u8 = 1;

/// Map and tile base of a screen's tile layer.
pub fn tile_bases(screen: DsScreen) -> (r: (i32, i32))
    ensures
        r.0 == 16,
        r.1 == if screen == DsScreen::Top {
            0int
        } else {
            1
        },
{
    match screen {
        DsScreen::Top => (16, 0),
        DsScreen::Bottom => (16, 1),
    }
}

/// Base of the bitmap layer.
pub const MAIN_BITMAP_BASE: i32 = 8;

/// State of a tile layer.
#[derive(Clone, Copy, Debug)]
pub enum TileSlot {
    /// No background.
    Empty,
    /// An image is asked for.
    Pending { image: &'static [u8], scroll: (i16, i16) },
    /// An image is shown.
    Loaded {
        scroll: (i16, i16),
        /// The hardware's number for the layer.
        bg_id: i32,
        /// The scroll that the hardware has.
        flushed_scroll: (i16, i16),
    },
}

/// State of a bitmap layer.
#[derive(Clone, Copy, Debug)]
pub enum BitmapSlot {
    Empty,
    Pending { image: &'static [u8] },
    Loaded,
}

/// The layers of one engine.
#[derive(Clone, Copy, Debug)]
pub struct EngineSlots {
    pub tile: TileSlot,
    pub bitmap: BitmapSlot,
    /// Is the tile layer turned on in hardware?
    pub tile_shown: bool,
    /// Is the bitmap layer turned on in hardware?
    pub bitmap_shown: bool,
}

impl Default for EngineSlots {
    fn default() -> (r: Self)
        ensures
            r.tile is Empty,
            r.bitmap is Empty,
            !r.tile_shown,
            !r.bitmap_shown,
    {
        EngineSlots {
            tile: TileSlot::Empty,
            bitmap: BitmapSlot::Empty,
            tile_shown: false,
            bitmap_shown: false,
        }
    }
}

/// The background layers of both screens.
#[derive(Clone, Copy, Debug)]
pub struct Backgrounds {
    pub main: EngineSlots,
    pub sub: EngineSlots,
}

impl Default for Backgrounds {
    fn default() -> (r: Self)
        ensures
            forall|screen: DsScreen| #[trigger] r.at(screen).tile is Empty && r.at(screen).bitmap is Empty
                && !r.at(screen).tile_shown && !r.at(screen).bitmap_shown,
    {
        Backgrounds { main: EngineSlots::default(), sub: EngineSlots::default() }
    }
}

/// The scroll that is asked for.
pub open spec fn scroll_of(slot: TileSlot) -> (i16, i16) {
    match slot {
        TileSlot::Empty => (0, 0),
        TileSlot::Pending { scroll, .. } => scroll,
        TileSlot::Loaded { scroll, .. } => scroll,
    }
}

/// A tile slot with another scroll; an empty one has none.
pub open spec fn with_scroll(slot: TileSlot, to: (i16, i16)) -> TileSlot {
    match slot {
        TileSlot::Empty => TileSlot::Empty,
        TileSlot::Pending { image, .. } => TileSlot::Pending { image, scroll: to },
        TileSlot::Loaded { bg_id, flushed_scroll, .. } => TileSlot::Loaded {
            scroll: to,
            bg_id,
            flushed_scroll,
        },
    }
}

/// A pending tile slot after its load gave a layer or failed; others stay.
pub open spec fn after_tile_load(slot: TileSlot, bg_id: Option<i32>) -> TileSlot {
    match slot {
        TileSlot::Pending { scroll, .. } => match bg_id {
            Some(bg_id) => TileSlot::Loaded { scroll, bg_id, flushed_scroll: (i16::MIN, i16::MIN) },
            None => TileSlot::Empty,
        },
        _ => slot,
    }
}

impl Backgrounds {
    /// The layers of a screen.
    pub open spec fn at(self, screen: DsScreen) -> EngineSlots {
        match screen {
            DsScreen::Top => self.main,
            DsScreen::Bottom => self.sub,
        }
    }

    /// The layers with those of one screen replaced.
    pub open spec fn with(self, screen: DsScreen, slots: EngineSlots) -> Backgrounds {
        match screen {
            DsScreen::Top => Backgrounds { main: slots, ..self },
            DsScreen::Bottom => Backgrounds { sub: slots, ..self },
        }
    }

    /// The layers of a screen.
    pub fn slots(&self, screen: DsScreen) -> (r: EngineSlots)
        ensures
            r == self.at(screen),
    {
        match screen {
            DsScreen::Top => self.main,
            DsScreen::Bottom => self.sub,
        }
    }

    /// Replace the layers of a screen.
    fn put(&mut self, screen: DsScreen, slots: EngineSlots)
        ensures
            *final(self) == old(self).with(screen, slots),
    {
        match screen {
            DsScreen::Top => {
                self.main = slots;
            },
            DsScreen::Bottom => {
                self.sub = slots;
            },
        }
    }

    /// Ask for a tile background. The scroll stays what it was.
    pub fn set_tile(&mut self, screen: DsScreen, image: &'static [u8])
        ensures
            *final(self) == old(self).with(
                screen,
                EngineSlots {
                    tile: TileSlot::Pending { image, scroll: scroll_of(old(self).at(screen).tile) },
                    ..old(self).at(screen)
                },
            ),
    {
        let slots: EngineSlots = self.slots(screen);
        let scroll: (i16, i16) = match slots.tile {
            TileSlot::Empty => (0, 0),
            TileSlot::Pending { scroll, .. } => scroll,
            TileSlot::Loaded { scroll, .. } => scroll,
        };
        self.put(screen, EngineSlots { tile: TileSlot::Pending { image, scroll }, ..slots });
    }

    /// Scroll the tile background; nothing happens where there is none.
    pub fn set_tile_scroll(&mut self, screen: DsScreen, x: i16, y: i16)
        ensures
            *final(self) == old(self).with(
                screen,
                EngineSlots {
                    tile: with_scroll(old(self).at(screen).tile, (x, y)),
                    ..old(self).at(screen)
                },
            ),
    {
        let slots: EngineSlots = self.slots(screen);
        let tile: TileSlot = match slots.tile {
            TileSlot::Empty => TileSlot::Empty,
            TileSlot::Pending { image, .. } => TileSlot::Pending { image, scroll: (x, y) },
            TileSlot::Loaded { bg_id, flushed_scroll, .. } => TileSlot::Loaded {
                scroll: (x, y),
                bg_id,
                flushed_scroll,
            },
        };
        self.put(screen, EngineSlots { tile, ..slots });
    }

    /// Remove the tile background; its layer is hidden with the next frame.
    pub fn clear_tile(&mut self, screen: DsScreen)
        ensures
            *final(self) == old(self).with(
                screen,
                EngineSlots { tile: TileSlot::Empty, ..old(self).at(screen) },
            ),
    {
        let slots: EngineSlots = self.slots(screen);
        self.put(screen, EngineSlots { tile: TileSlot::Empty, ..slots });
    }

    /// Ask for a bitmap background. Only the top screen has such a layer; for the
    /// other nothing happens.
    pub fn set_bitmap(&mut self, screen: DsScreen, image: &'static [u8])
        ensures
            screen == DsScreen::Bottom ==> *final(self) == *old(self),
            screen == DsScreen::Top ==> *final(self) == old(self).with(
                screen,
                EngineSlots { bitmap: BitmapSlot::Pending { image }, ..old(self).at(screen) },
            ),
    {
        if screen == DsScreen::Bottom {
            return;
        }
        let slots: EngineSlots = self.slots(screen);
        self.put(screen, EngineSlots { bitmap: BitmapSlot::Pending { image }, ..slots });
    }

    /// Remove the bitmap background.
    pub fn clear_bitmap(&mut self, screen: DsScreen)
        ensures
            *final(self) == old(self).with(
                screen,
                EngineSlots { bitmap: BitmapSlot::Empty, ..old(self).at(screen) },
            ),
    {
        let slots: EngineSlots = self.slots(screen);
        self.put(screen, EngineSlots { bitmap: BitmapSlot::Empty, ..slots });
    }

    /// The image that the tile layer of a screen waits for.
    pub fn pending_tile(&self, screen: DsScreen) -> (r: Option<&'static [u8]>)
        ensures
            r == match self.at(screen).tile {
                TileSlot::Pending { image, .. } => Some(image),
                _ => None,
            },
    {
        match self.slots(screen).tile {
            TileSlot::Pending { image, .. } => Some(image),
            _ => None,
        }
    }

    /// The image that the bitmap layer of a screen waits for; the bottom screen never
    /// waits for one.
    pub fn pending_bitmap(&self, screen: DsScreen) -> (r: Option<&'static [u8]>)
        ensures
            screen == DsScreen::Bottom ==> r is None,
            screen == DsScreen::Top ==> r == match self.at(screen).bitmap {
                BitmapSlot::Pending { image } => Some(image),
                _ => None,
            },
    {
        if screen == DsScreen::Bottom {
            return None;
        }
        match self.slots(screen).bitmap {
            BitmapSlot::Pending { image } => Some(image),
            _ => None,
        }
    }

    /// Take the outcome of loading the pending tile image: the layer that shows it, or
    /// nothing. A failed load leaves the slot empty.
    pub fn tile_loaded(&mut self, screen: DsScreen, bg_id: Option<i32>)
        ensures
            *final(self) == old(self).with(
                screen,
                EngineSlots {
                    tile: after_tile_load(old(self).at(screen).tile, bg_id),
                    tile_shown: old(self).at(screen).tile_shown || (old(self).at(screen).tile
                        is Pending && bg_id is Some),
                    ..old(self).at(screen)
                },
            ),
    {
        let slots: EngineSlots = self.slots(screen);
        if let TileSlot::Pending { scroll, .. } = slots.tile {
            let next: EngineSlots = match bg_id {
                Some(bg_id) => EngineSlots {
                    tile: TileSlot::Loaded {
                        scroll,
                        bg_id,
                        flushed_scroll: (i16::MIN, i16::MIN),
                    },
                    tile_shown: true,
                    ..slots
                },
                None => EngineSlots { tile: TileSlot::Empty, ..slots },
            };
            self.put(screen, next);
        }
    }

    /// Take the outcome of loading the pending bitmap image.
    pub fn bitmap_loaded(&mut self, screen: DsScreen, loaded: bool)
        ensures
            screen == DsScreen::Bottom || !(old(self).at(screen).bitmap is Pending) ==> *final(self)
                == *old(self),
            screen == DsScreen::Top && old(self).at(screen).bitmap is Pending ==> *final(self)
                == old(self).with(
                screen,
                EngineSlots {
                    bitmap: if loaded {
                        BitmapSlot::Loaded
                    } else {
                        BitmapSlot::Empty
                    },
                    bitmap_shown: old(self).at(screen).bitmap_shown || loaded,
                    ..old(self).at(screen)
                },
            ),
    {
        if screen == DsScreen::Bottom {
            return;
        }
        let slots: EngineSlots = self.slots(screen);
        if let BitmapSlot::Pending { .. } = slots.bitmap {
            let next: EngineSlots = if loaded {
                EngineSlots { bitmap: BitmapSlot::Loaded, bitmap_shown: true, ..slots }
            } else {
                EngineSlots { bitmap: BitmapSlot::Empty, ..slots }
            };
            self.put(screen, next);
        }
    }

    /// Which layers of a screen are to be turned off now, tile and bitmap: those that
    /// are on and have no image any more. They count as off afterwards.
    pub fn layers_to_hide(&mut self, screen: DsScreen) -> (r: (bool, bool))
        ensures
            r.0 == (old(self).at(screen).tile_shown && old(self).at(screen).tile is Empty),
            r.1 == (old(self).at(screen).bitmap_shown && old(self).at(screen).bitmap is Empty),
            *final(self) == old(self).with(
                screen,
                EngineSlots {
                    tile_shown: old(self).at(screen).tile_shown && !r.0,
                    bitmap_shown: old(self).at(screen).bitmap_shown && !r.1,
                    ..old(self).at(screen)
                },
            ),
    {
        let slots: EngineSlots = self.slots(screen);
        let tile_empty: bool = match slots.tile {
            TileSlot::Empty => true,
            _ => false,
        };
        let bitmap_empty: bool = match slots.bitmap {
            BitmapSlot::Empty => true,
            _ => false,
        };
        let tile: bool = slots.tile_shown && tile_empty;
        let bitmap: bool = slots.bitmap_shown && bitmap_empty;
        self.put(
            screen,
            EngineSlots {
                tile_shown: slots.tile_shown && !tile,
                bitmap_shown: slots.bitmap_shown && !bitmap,
                ..slots
            },
        );
        (tile, bitmap)
    }

    /// The scroll to write for a screen's tile layer, in units of 1/256 pixel, if it
    /// is loaded and its scroll changed since it was last written.
    pub fn flush_scroll(&mut self, screen: DsScreen) -> (r: Option<(i32, i32, i32)>)
        ensures
            match old(self).at(screen).tile {
                TileSlot::Loaded { scroll, bg_id, flushed_scroll } => {
                    &&& r == if scroll != flushed_scroll {
                        Some((bg_id, (scroll.0 * 256) as i32, (scroll.1 * 256) as i32))
                    } else {
                        None
                    }
                    &&& *final(self) == old(self).with(
                        screen,
                        EngineSlots {
                            tile: TileSlot::Loaded { scroll, bg_id, flushed_scroll: scroll },
                            ..old(self).at(screen)
                        },
                    )
                },
                _ => r is None && *final(self) == *old(self),
            },
    {
        let slots: EngineSlots = self.slots(screen);
        if let TileSlot::Loaded { scroll, bg_id, flushed_scroll } = slots.tile {
            if scroll.0 != flushed_scroll.0 || scroll.1 != flushed_scroll.1 {
                self.put(
                    screen,
                    EngineSlots {
                        tile: TileSlot::Loaded { scroll, bg_id, flushed_scroll: scroll },
                        ..slots
                    },
                );
                return Some((bg_id, scroll.0 as i32 * 256, scroll.1 as i32 * 256));
            }
        }
        None
    }
}

/// A cleared tile layer that was shown is hidden with the next frame, and once only.
pub proof fn law_cleared_layer_is_hidden_once(b: Backgrounds, screen: DsScreen)
    requires
        b.at(screen).tile_shown,
    ensures
        ({
            let cleared = b.with(screen, EngineSlots { tile: TileSlot::Empty, ..b.at(screen) });
            let after = cleared.with(
                screen,
                EngineSlots { tile_shown: false, ..cleared.at(screen) },
            );
            &&& cleared.at(screen).tile_shown && cleared.at(screen).tile is Empty
            &&& !(after.at(screen).tile_shown && after.at(screen).tile is Empty)
        }),
{
}

/// Changing the layers of one screen leaves the other alone.
pub proof fn law_screens_are_independent(
    b: Backgrounds,
    screen: DsScreen,
    other: DsScreen,
    slots: EngineSlots,
)
    requires
        screen != other,
    ensures
        b.with(screen, slots).at(other) == b.at(other),
        b.with(screen, slots).at(screen) == slots,
{
}

/// Replacing a pending image keeps its scroll.
pub proof fn law_replacing_keeps_scroll(slot: TileSlot, image: &'static [u8])
    ensures
        scroll_of(TileSlot::Pending { image, scroll: scroll_of(slot) }) == scroll_of(slot),
        scroll_of(after_tile_load(TileSlot::Pending { image, scroll: scroll_of(slot) }, Some(0)))
            == scroll_of(slot),
{
}

/// What loading a tile background writes.
pub struct TileUpload {
    /// The tiles as halfwords.
    pub gfx: Vec<u16>,
    /// The map entries, moved to the tile layers' palette bank.
    pub map: Vec<u16>,
    /// Palette entry that the colours start at.
    pub palette_offset: usize,
    pub palette: Vec<u16>,
}

/// A map entry moved to the tile layers' palette bank: tile number and flips stay.
pub open spec fn rebanked(entry: u16) -> u16 {
    (entry % 0x1000 + 0x1000) as u16
}

/// Plan the load of a tile background.
pub fn tile_upload(loaded: &LoadedTile) -> (r: TileUpload)
    ensures
        r.gfx@ == u16s_at(loaded.gfx@, 0, (loaded.gfx@.len() / 2) as nat),
        r.map@ == u16s_at(loaded.map@, 0, (loaded.map@.len() / 2) as nat).map_values(
            |e: u16| rebanked(e),
        ),
        r.palette_offset == PALETTE_BANK_TILE * 16,
        r.palette@ == bank_colors(loaded.palette@),
{
    let entries: Vec<u16> = read_u16s(loaded.map.as_slice(), 0, loaded.map.len() / 2);
    let mut map: Vec<u16> = Vec::new();
    let mut i: usize = 0;
    while i < entries.len()
        invariant
            i <= entries.len(),
            map@ == entries@.take(i as int).map_values(|e: u16| rebanked(e)),
        decreases entries.len() - i,
    {
        map.push(entries[i] % 0x1000 + 0x1000);
        assert(map@ =~= entries@.take(i + 1).map_values(|e: u16| rebanked(e)));
        i = i + 1;
    }
    assert(entries@.take(entries.len() as int) =~= entries@);
    TileUpload {
        gfx: read_u16s(loaded.gfx.as_slice(), 0, loaded.gfx.len() / 2),
        map,
        palette_offset: 16,
        palette: take_bank(&loaded.palette),
    }
}

/// Where pixel `p` of a bitmap of this width goes: rows are 256 pixels apart.
pub open spec fn pixel_offset(p: int, width: int) -> int {
    (p / width) * 256 + p % width
}

/// How many pixels stand in whole rows.
pub open spec fn row_pixels(total: int, width: int) -> int {
    (total / width) * width
}

/// Plan the load of a bitmap background: offset and value of every pixel, row by
/// row. An incomplete last row is left out.
pub fn bitmap_upload(loaded: &LoadedBitmap) -> (r: Vec<(u64, u16)>)
    requires
        loaded.width > 0,
        loaded.pixels@.len() <= u32::MAX,
    ensures
        r@.len() == row_pixels(loaded.pixels@.len() as int, loaded.width as int),
        forall|p: int|
            0 <= p < r@.len() ==> #[trigger] r@[p] == (
                pixel_offset(p, loaded.width as int) as u64,
                loaded.pixels@[p],
            ),
{
    let width: usize = loaded.width as usize;
    let rows: usize = loaded.pixels.len() / width;
    let ghost w = width as int;
    proof {
        lemma_rows_fit(loaded.pixels@.len() as int, w);
    }
    let mut out: Vec<(u64, u16)> = Vec::new();
    let mut row: usize = 0;
    assert(0 * w == 0);
    while row < rows
        invariant
            row <= rows,
            w == width == loaded.width,
            w > 0,
            rows * w <= loaded.pixels@.len(),
            rows <= loaded.pixels@.len() <= u32::MAX,
            out@.len() == row * w,
            forall|p: int|
                0 <= p < out@.len() ==> #[trigger] out@[p] == (
                    pixel_offset(p, w) as u64,
                    loaded.pixels@[p],
                ),
        decreases rows - row,
    {
        let mut i: usize = 0;
        assert((row + 1) * w == row * w + w) by (nonlinear_arith);
        assert((row + 1) * w <= rows * w) by (nonlinear_arith)
            requires
                row + 1 <= rows,
                w > 0,
        ;
        while i < width
            invariant
                i <= width,
                row < rows,
                w == width == loaded.width,
                w > 0,
                row * w + w <= loaded.pixels@.len(),
                loaded.pixels@.len() <= u32::MAX,
                out@.len() == row * w + i,
                forall|p: int|
                    0 <= p < out@.len() ==> #[trigger] out@[p] == (
                        pixel_offset(p, w) as u64,
                        loaded.pixels@[p],
                    ),
            decreases width - i,
        {
            let p: usize = out.len();
            proof {
                lemma_row_column(row as int, i as int, w);
                assert(row <= row * w) by (nonlinear_arith)
                    requires
                        w >= 1,
                        row >= 0,
                ;
            }
            out.push((row as u64 * 256 + i as u64, loaded.pixels[p]));
            i = i + 1;
        }
        row = row + 1;
    }
    out
}

proof fn lemma_rows_fit(total: int, w: int)
    by (nonlinear_arith)
    requires
        total >= 0,
        w > 0,
    ensures
        (total / w) * w <= total,
        0 <= total / w <= total,
{
}

proof fn lemma_row_column(row: int, i: int, w: int)
    requires
        row >= 0,
        0 <= i < w,
    ensures
        (row * w + i) / w == row,
        (row * w + i) % w == i,
{
    vstd::arithmetic::div_mod::lemma_fundamental_div_mod_converse(row * w + i, w, row, i);
}

} // verus!
