//! Loaded sprite images and the sprite entries of a frame.

use crate::bytes::{read_u16s, u16s_at};
use crate::sprite::asset::LoadedSprite;
use crate::sprite::slots::MAX_SPRITES;
use vstd::prelude::*;

verus! {

/// How many distinct images can be loaded: one per palette bank.
pub const MAX_SPRITE_IMAGES: usize = 16;

/// Size code of an 8 by 8 sprite.
pub const SIZE_8X8: i32 = 0x2;

/// Size code of a 16 by 16 sprite.
pub const SIZE_16X16: i32 = 0x4008;

/// Size code of a 32 by 32 sprite.
pub const SIZE_32X32: i32 = 0x8020;

/// Size code of a 64 by 64 sprite.
pub const SIZE_64X64: i32 = 0xc080;

/// The identity of an image: where its path stands and how long it is. Two equal
/// paths in different places are different images.
#[derive(Clone, Copy, Debug, PartialEq, Eq, Structural)]
pub struct ImageKey {
    pub addr: u64,
    pub len: u64,
}

/// One sprite on screen, by its top left corner.
#[derive(Clone, Copy, Debug, PartialEq, Eq, Structural)]
pub struct Sprite {
    pub x: i16,
    pub y: i16,
    pub image: ImageKey,
}

impl Sprite {
    /// A sprite in the corner of the screen.
    pub fn new(image: ImageKey) -> (r: Self)
        ensures
            r == (Sprite { x: 0, y: 0, image }),
    {
        Sprite { x: 0, y: 0, image }
    }

    /// The sprite at another position.
    pub fn at(self, x: i16, y: i16) -> (r: Self)
        ensures
            r == (Sprite { x, y, image: self.image }),
    {
        Sprite { x, y, image: self.image }
    }
}

/// The size code of a square sprite; other sizes have none.
pub open spec fn size_code(width: u16, height: u16) -> Option<i32> {
    if width != height {
        None
    } else if width == 8 {
        Some(SIZE_8X8)
    } else if width == 16 {
        Some(SIZE_16X16)
    } else if width == 32 {
        Some(SIZE_32X32)
    } else if width == 64 {
        Some(SIZE_64X64)
    } else {
        None
    }
}

/// The size code of a square sprite.
pub fn size_code_for(width: u16, height: u16) -> (r: Option<i32>)
    ensures
        r == size_code(width, height),
{
    if width != height {
        None
    } else if width == 8 {
        Some(SIZE_8X8)
    } else if width == 16 {
        Some(SIZE_16X16)
    } else if width == 32 {
        Some(SIZE_32X32)
    } else if width == 64 {
        Some(SIZE_64X64)
    } else {
        None
    }
}

/// What loading an image writes: its tiles as halfwords, and up to 16 colours from
/// an entry of the palette on.
pub struct SpriteUpload {
    pub size_code: i32,
    pub tiles: Vec<u16>,
    pub palette_offset: usize,
    pub palette: Vec<u16>,
}

/// The first 16 colours of a palette.
pub open spec fn bank_colors(palette: Seq<u16>) -> Seq<u16> {
    if palette.len() > 16 {
        palette.take(16)
    } else {
        palette
    }
}

/// Copy the first 16 colours of a palette.
pub fn take_bank(palette: &Vec<u16>) -> (r: Vec<u16>)
    ensures
        r@ == bank_colors(palette@),
{
    let n: usize = if palette.len() > 16 {
        16
    } else {
        palette.len()
    };
    let mut out: Vec<u16> = Vec::new();
    let mut i: usize = 0;
    while i < n
        invariant
            i <= n <= palette.len(),
            out@ == palette@.take(i as int),
        decreases n - i,
    {
        out.push(palette[i]);
        assert(palette@.take(i + 1) =~= palette@.take(i as int).push(palette@[i as int]));
        i = i + 1;
    }
    assert(palette@.take(palette.len() as int) =~= palette@);
    out
}

/// Plan the load of an image into a palette bank; `None` for a size that the
/// hardware has no square for.
pub fn load_plan(loaded: &LoadedSprite, bank: u8) -> (r: Option<SpriteUpload>)
    ensures
        r is Some <==> size_code(loaded.width, loaded.height) is Some,
        r matches Some(u) ==> {
            &&& Some(u.size_code) == size_code(loaded.width, loaded.height)
            &&& u.tiles@ == u16s_at(loaded.gfx@, 0, (loaded.gfx@.len() / 2) as nat)
            &&& u.palette_offset == bank * 16
            &&& u.palette@ == bank_colors(loaded.palette@)
        },
{
    match size_code_for(loaded.width, loaded.height) {
        None => None,
        Some(size_code) => Some(
            SpriteUpload {
                size_code,
                tiles: read_u16s(loaded.gfx.as_slice(), 0, loaded.gfx.len() / 2),
                palette_offset: bank as usize * 16,
                palette: take_bank(&loaded.palette),
            },
        ),
    }
}

/// The hardware resources of a loaded image.
#[derive(Clone, Copy, Debug, PartialEq, Eq, Structural)]
pub struct SpriteEntry {
    pub key: ImageKey,
    /// Address of its tiles.
    pub gfx: u64,
    pub palette_bank: u8,
    pub size_code: i32,
}

/// The loaded images.
pub struct SpriteAssets {
    pub entries: Vec<SpriteEntry>,
}

/// Position of the first entry with this key.
pub open spec fn entry_of(entries: Seq<SpriteEntry>, key: ImageKey) -> Option<SpriteEntry>
    decreases entries.len(),
{
    if entries.len() == 0 {
        None
    } else if entries[0].key == key {
        Some(entries[0])
    } else {
        entry_of(entries.skip(1), key)
    }
}

impl Default for SpriteAssets {
    fn default() -> (r: Self)
        ensures
            r.wf(),
            r.entries@.len() == 0,
    {
        SpriteAssets { entries: Vec::new() }
    }
}

impl SpriteAssets {
    /// There are as many entries as banks at most, each has its own bank, and no
    /// image is loaded twice.
    pub open spec fn wf(self) -> bool {
        &&& self.entries@.len() <= MAX_SPRITE_IMAGES
        &&& forall|i: int|
            0 <= i < self.entries@.len() ==> (#[trigger] self.entries@[i]).palette_bank == i
        &&& forall|i: int, j: int|
            0 <= i < j < self.entries@.len() ==> (#[trigger] self.entries@[i]).key != (
            #[trigger] self.entries@[j]).key
    }

    /// The entry of an image, if it is loaded.
    pub open spec fn lookup(self, key: ImageKey) -> Option<SpriteEntry> {
        entry_of(self.entries@, key)
    }

    /// The entry of an image, if it is loaded.
    pub fn find(&self, key: ImageKey) -> (r: Option<SpriteEntry>)
        ensures
            r == self.lookup(key),
    {
        let mut i: usize = 0;
        assert(self.entries@.skip(0) =~= self.entries@);
        while i < self.entries.len()
            invariant
                i <= self.entries.len(),
                entry_of(self.entries@.skip(i as int), key) == self.lookup(key),
            decreases self.entries.len() - i,
        {
            assert(self.entries@.skip(i as int)[0] == self.entries@[i as int]);
            if self.entries[i].key == key {
                return Some(self.entries[i]);
            }
            assert(self.entries@.skip(i as int).skip(1) =~= self.entries@.skip(i + 1));
            i = i + 1;
        }
        None
    }

    /// How many images are loaded.
    pub fn loaded_count(&self) -> (r: usize)
        ensures
            r == self.entries@.len(),
    {
        self.entries.len()
    }

    /// The palette bank to load an image into: none if it is loaded or no bank is
    /// left.
    pub fn bank_for(&self, key: ImageKey) -> (r: Option<u8>)
        requires
            self.wf(),
        ensures
            r is Some <==> self.lookup(key) is None && self.entries@.len() < MAX_SPRITE_IMAGES,
            r matches Some(b) ==> b == self.entries@.len(),
    {
        if self.find(key).is_some() || self.entries.len() >= MAX_SPRITE_IMAGES {
            None
        } else {
            Some(self.entries.len() as u8)
        }
    }

    /// Record a loaded image.
    pub fn add(&mut self, key: ImageKey, gfx: u64, size_code: i32)
        requires
            old(self).wf(),
            old(self).lookup(key) is None,
            old(self).entries@.len() < MAX_SPRITE_IMAGES,
        ensures
            final(self).wf(),
            final(self).entries@ == old(self).entries@.push(
                SpriteEntry {
                    key,
                    gfx,
                    palette_bank: old(self).entries@.len() as u8,
                    size_code,
                },
            ),
    {
        let ghost before = self.entries@;
        let bank: u8 = self.entries.len() as u8;
        proof {
            lemma_not_loaded(before, key);
        }
        self.entries.push(SpriteEntry { key, gfx, palette_bank: bank, size_code });
    }
}

/// An image without an entry differs from every loaded one.
proof fn lemma_not_loaded(entries: Seq<SpriteEntry>, key: ImageKey)
    requires
        entry_of(entries, key) is None,
    ensures
        forall|i: int| 0 <= i < entries.len() ==> (#[trigger] entries[i]).key != key,
    decreases entries.len(),
{
    if entries.len() > 0 {
        lemma_not_loaded(entries.skip(1), key);
        assert forall|i: int| 0 <= i < entries.len() implies (#[trigger] entries[i]).key != key by {
            if i > 0 {
                assert(entries.skip(1)[i - 1] == entries[i]);
            }
        }
    }
}

/// One entry of the sprite table.
#[derive(Clone, Copy, Debug, PartialEq, Eq, Structural)]
pub struct OamEntry {
    pub id: u8,
    pub x: i32,
    pub y: i32,
    pub palette: i32,
    pub size: i32,
    pub gfx: u64,
    pub hide: bool,
}

/// The state that names an engine's sprite table.
#[derive(Clone, Copy, Debug, PartialEq, Eq, Structural)]
pub enum OamState {
    Main,
    Sub,
}

/// The sprites whose image is loaded, with its entry, in order.
pub open spec fn live(sprites: Seq<Sprite>, assets: SpriteAssets) -> Seq<(Sprite, SpriteEntry)>
    decreases sprites.len(),
{
    if sprites.len() == 0 {
        Seq::empty()
    } else {
        let rest = live(sprites.drop_last(), assets);
        match assets.lookup(sprites.last().image) {
            Some(e) => rest.push((sprites.last(), e)),
            None => rest,
        }
    }
}

/// How many sprites are shown.
pub open spec fn shown_count(sprites: Seq<Sprite>, assets: SpriteAssets) -> int {
    if live(sprites, assets).len() > MAX_SPRITES {
        MAX_SPRITES as int
    } else {
        live(sprites, assets).len() as int
    }
}

/// The table entry of a sprite in slot `id`.
pub open spec fn shown_entry(id: int, s: Sprite, e: SpriteEntry) -> OamEntry {
    OamEntry {
        id: id as u8,
        x: s.x as i32,
        y: s.y as i32,
        palette: e.palette_bank as i32,
        size: e.size_code,
        gfx: e.gfx,
        hide: false,
    }
}

/// The entry that hides slot `id`.
pub open spec fn hidden_entry(id: int) -> OamEntry {
    OamEntry { id: id as u8, x: 0, y: 0, palette: 0, size: SIZE_16X16, gfx: 0, hide: true }
}

/// The entries of a frame: the shown sprites from slot zero on, then a hidden entry
/// for every slot that was in use in the last frame and is not any more.
pub open spec fn frame_entries(
    sprites: Seq<Sprite>,
    assets: SpriteAssets,
    high_water: u8,
) -> Seq<OamEntry> {
    let n = shown_count(sprites, assets);
    let l = live(sprites, assets);
    let total = if high_water > n {
        high_water as int
    } else {
        n
    };
    Seq::new(
        total as nat,
        |i: int|
            if i < n {
                shown_entry(i, l[i].0, l[i].1)
            } else {
                hidden_entry(i)
            },
    )
}

/// More sprites only add to the live ones.
proof fn lemma_live_prefix(sprites: Seq<Sprite>, assets: SpriteAssets, k: int)
    requires
        0 <= k <= sprites.len(),
    ensures
        live(sprites.take(k), assets).len() <= live(sprites, assets).len(),
        forall|i: int|
            0 <= i < live(sprites.take(k), assets).len() ==> live(sprites.take(k), assets)[i]
                == live(sprites, assets)[i],
    decreases sprites.len(),
{
    if k == sprites.len() {
        assert(sprites.take(k) =~= sprites);
    } else {
        lemma_live_prefix(sprites.drop_last(), assets, k);
        assert(sprites.drop_last().take(k) =~= sprites.take(k));
    }
}

/// Put every sprite whose image is loaded into the next slot, up to the number of
/// slots, and hide the slots that fell vacant. Gives the entries and the number of
/// slots in use.
pub fn submit_sprites(assets: &SpriteAssets, sprites: &Vec<Sprite>, high_water: u8) -> (r: (
    Vec<OamEntry>,
    u8,
))
    ensures
        r.0@ == frame_entries(sprites@, *assets, high_water),
        r.1 == shown_count(sprites@, *assets),
{
    let ghost l = live(sprites@, *assets);
    let mut out: Vec<OamEntry> = Vec::new();
    let mut next: u8 = 0;
    let mut i: usize = 0;
    assert(sprites@.take(0) =~= Seq::empty());
    while i < sprites.len() && next < 128
        invariant
            i <= sprites.len(),
            next <= 128,
            next == live(sprites@.take(i as int), *assets).len(),
            out@.len() == next,
            l == live(sprites@, *assets),
            next <= l.len(),
            forall|k: int|
                0 <= k < next ==> #[trigger] out@[k] == shown_entry(k, l[k].0, l[k].1),
        decreases sprites.len() - i,
    {
        let s: Sprite = sprites[i];
        proof {
            assert(sprites@.take(i + 1).drop_last() =~= sprites@.take(i as int));
            assert(sprites@.take(i + 1).last() == s);
            lemma_live_prefix(sprites@, *assets, i + 1);
        }
        if let Some(e) = assets.find(s.image) {
            proof {
                let part = live(sprites@.take(i + 1), *assets);
                assert(part[next as int] == (s, e));
                assert(l[next as int] == (s, e));
            }
            out.push(
                OamEntry {
                    id: next,
                    x: s.x as i32,
                    y: s.y as i32,
                    palette: e.palette_bank as i32,
                    size: e.size_code,
                    gfx: e.gfx,
                    hide: false,
                },
            );
            next = next + 1;
        }
        i = i + 1;
    }
    proof {
        lemma_live_prefix(sprites@, *assets, i as int);
        if i == sprites.len() {
            assert(sprites@.take(i as int) =~= sprites@);
        }
        assert(next == shown_count(sprites@, *assets));
    }
    let mut vacant: u8 = next;
    while vacant < high_water
        invariant
            next <= vacant,
            vacant <= next || vacant <= high_water,
            next == shown_count(sprites@, *assets),
            l == live(sprites@, *assets),
            next <= l.len(),
            out@.len() == vacant,
            forall|k: int|
                0 <= k < next ==> #[trigger] out@[k] == shown_entry(k, l[k].0, l[k].1),
            forall|k: int| next <= k < vacant ==> #[trigger] out@[k] == hidden_entry(k),
        decreases high_water - vacant,
    {
        out.push(
            OamEntry { id: vacant, x: 0, y: 0, palette: 0, size: SIZE_16X16, gfx: 0, hide: true },
        );
        vacant = vacant + 1;
    }
    assert(out@ =~= frame_entries(sprites@, *assets, high_water));
    (out, next)
}

/// After a frame no slot that was in use before shows anything but this frame's
/// sprites: each such slot is either shown or hidden.
pub proof fn law_no_stale_sprites(
    sprites: Seq<Sprite>,
    assets: SpriteAssets,
    high_water: u8,
    slot: int,
)
    requires
        0 <= slot < high_water,
    ensures
        slot < frame_entries(sprites, assets, high_water).len(),
        frame_entries(sprites, assets, high_water)[slot].id == slot,
        frame_entries(sprites, assets, high_water)[slot].hide == (slot >= shown_count(
            sprites,
            assets,
        )),
{
}

} // verus!
