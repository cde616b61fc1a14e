//! Background baking: encoders for the `.bg` and `.bbg` blobs.

use crate::bake::const_tree::{
    const_module, copy_texts, emit_const_module, entry_texts, texts, ConstEntry, EntryText,
};
use crate::bake::files::{
    asset_file, asset_text, asset_texts, extension_of, insert_asset_file,
    law_sort_is_an_ordered_permutation, sort_assets, split_file_name, stem_of, AssetFile,
    AssetText, FoundFile,
};
use crate::bg::asset::{
    is_bitmap_blob, is_tile_blob, tile_end, tile_gfx_off, tile_map_off, BITMAP_MAGIC, TILE_MAGIC,
};
use crate::bytes::{
    lemma_parts, lemma_u16_at, lemma_u16s_at, lemma_u16s_le, lemma_u32_at, push_bytes, push_u16, push_u16s,
    push_u32, read_u16s, read_u32_be, u16_at, u16_le, u16s_at, u16s_le, u32_at, u32_be_at, u32_le,
};
use crate::strings::{decimal, push_text, same_text, to_decimal};
use vstd::prelude::*;

verus! {

/// Subdirectory under the filesystem root that holds baked backgrounds.
pub const NITROFS_SUBDIR: &'static str = "backgrounds";

/// Subdirectory of the source tree with tile-mode images.
pub const TILED_SUBDIR: &'static str = "tiled";

/// Subdirectory of the source tree with bitmap-mode images.
pub const BITMAP_SUBDIR: &'static str = "bitmap";

/// Pixel width of a tile background.
pub const TILE_MAP_WIDTH_PX: u16 = 256;

/// Pixel height of a tile background.
pub const TILE_MAP_HEIGHT_PX: u16 = 256;

/// Pixel width that bitmap images must have.
pub const BITMAP_REQUIRED_WIDTH: u16 = 256;

/// Which flavour of background an image bakes to.
#[derive(Clone, Copy, Debug, PartialEq, Eq, Structural)]
pub enum Kind {
    Tile,
    Bitmap,
}

/// The file extension of a kind.
pub open spec fn kind_extension(kind: Kind) -> Seq<char> {
    match kind {
        Kind::Tile => "bg"@,
        Kind::Bitmap => "bbg"@,
    }
}

/// The kind that goes by a name.
pub open spec fn kind_named(name: Seq<char>) -> Option<Kind> {
    if name == "tile"@ || name == "tiled"@ {
        Some(Kind::Tile)
    } else if name == "bitmap"@ || name == "bmp"@ {
        Some(Kind::Bitmap)
    } else {
        None
    }
}

/// What the image tool is told for a tile background: 4bpp tiles with colour 0
/// clear, a reduced map of 16-bit entries, a 16-bit palette, plain binary files.
pub const TILE_FLAGS: [&'static str; 10] = [
    "-gt",
    "-gB4",
    "-gT0",
    "-m",
    "-mR4",
    "-mLs",
    "-p",
    "-pu16",
    "-ftb",
    "-fh!",
];

/// What the image tool is told for a bitmap background: 16bpp pixels, plain
/// binary files.
pub const BITMAP_FLAGS: [&'static str; 4] = ["-gb", "-gB16", "-ftb", "-fh!"];

impl Kind {
    /// The kind a command line asks for: `tile` or `tiled`, `bitmap` or `bmp`.
    pub fn named(name: &str) -> (r: Option<Kind>)
        ensures
            r == kind_named(name@),
    {
        if same_text(name, "tile") || same_text(name, "tiled") {
            Some(Kind::Tile)
        } else if same_text(name, "bitmap") || same_text(name, "bmp") {
            Some(Kind::Bitmap)
        } else {
            None
        }
    }

    /// Output file extension produced for this kind.
    pub fn extension(self) -> (r: &'static str)
        ensures
            r@ == kind_extension(self),
    {
        match self {
            Kind::Tile => "bg",
            Kind::Bitmap => "bbg",
        }
    }
}

/// A baked 4bpp tile background, ready to encode.
#[derive(Clone, Debug)]
pub struct TileBg {
    /// RGB15 palette.
    pub palette: Vec<u16>,
    /// 4bpp tile gfx, one byte per pair of pixels.
    pub gfx: Vec<u8>,
    /// 16-bit map entries, low byte first.
    pub map: Vec<u8>,
}

/// A baked 16bpp bitmap background, ready to encode.
#[derive(Clone, Debug)]
pub struct BitmapBg {
    /// Width in pixels.
    pub width: u16,
    /// Height in pixels.
    pub height: u16,
    /// RGB15 pixels in row-major order.
    pub pixels: Vec<u16>,
}

/// The header of a tile blob with these counts.
pub open spec fn tile_header(palette: u32, gfx: u32, map: u32) -> Seq<u8> {
    u32_le(TILE_MAGIC) + u32_le(palette) + u32_le(gfx) + u32_le(map)
}

/// The tile blob of these parts.
pub open spec fn tile_blob(palette: Seq<u16>, gfx: Seq<u8>, map: Seq<u8>) -> Seq<u8> {
    tile_header(palette.len() as u32, gfx.len() as u32, map.len() as u32) + u16s_le(palette) + gfx
        + map
}

/// The bitmap blob of these parts.
pub open spec fn bitmap_blob(width: u16, height: u16, pixels: Seq<u16>) -> Seq<u8> {
    u32_le(BITMAP_MAGIC) + u16_le(width) + u16_le(height) + u32_le(pixels.len() as u32) + u16s_le(
        pixels,
    )
}

/// Serialise a [`TileBg`] to the `.bg` format.
pub fn encode_tile(bg: &TileBg) -> (out: Vec<u8>)
    ensures
        out@ == tile_blob(bg.palette@, bg.gfx@, bg.map@),
{
    let mut out: Vec<u8> = Vec::new();
    push_u32(&mut out, TILE_MAGIC);
    push_u32(&mut out, bg.palette.len() as u32);
    push_u32(&mut out, bg.gfx.len() as u32);
    push_u32(&mut out, bg.map.len() as u32);
    assert(out@ =~= tile_header(
        bg.palette.len() as u32,
        bg.gfx.len() as u32,
        bg.map.len() as u32,
    ));
    push_u16s(&mut out, bg.palette.as_slice());
    push_bytes(&mut out, bg.gfx.as_slice());
    push_bytes(&mut out, bg.map.as_slice());
    out
}

/// Serialise a [`BitmapBg`] to the `.bbg` format.
pub fn encode_bitmap(bg: &BitmapBg) -> (out: Vec<u8>)
    ensures
        out@ == bitmap_blob(bg.width, bg.height, bg.pixels@),
{
    let mut out: Vec<u8> = Vec::new();
    push_u32(&mut out, BITMAP_MAGIC);
    push_u16(&mut out, bg.width);
    push_u16(&mut out, bg.height);
    push_u32(&mut out, bg.pixels.len() as u32);
    push_u16s(&mut out, bg.pixels.as_slice());
    assert(out@ =~= bitmap_blob(bg.width, bg.height, bg.pixels@));
    out
}

/// Every encoded tile background parses back to its parts, whatever follows it.
pub proof fn law_tile_round_trip(palette: Seq<u16>, gfx: Seq<u8>, map: Seq<u8>, tail: Seq<u8>)
    requires
        palette.len() <= u32::MAX,
        gfx.len() <= u32::MAX,
        map.len() <= u32::MAX,
    ensures
        ({
            let s = tile_blob(palette, gfx, map) + tail;
            &&& is_tile_blob(s)
            &&& tile_end(s) == tile_blob(palette, gfx, map).len()
            &&& u16s_at(s, 16, u32_at(s, 4) as nat) == palette
            &&& s.subrange(tile_gfx_off(s), tile_map_off(s)) == gfx
            &&& s.subrange(tile_map_off(s), tile_end(s)) == map
        }),
{
    let s = tile_blob(palette, gfx, map) + tail;
    let h = tile_header(palette.len() as u32, gfx.len() as u32, map.len() as u32);
    lemma_u16s_le(palette);
    lemma_parts(h, u16s_le(palette), gfx, map, tail);
    lemma_tile_header(
        palette.len() as u32,
        gfx.len() as u32,
        map.len() as u32,
        u16s_le(palette) + gfx + map + tail,
    );
    lemma_u16s_at(s, 16, palette);
}

/// The counts read back from a tile header.
proof fn lemma_tile_header(palette: u32, gfx: u32, map: u32, rest: Seq<u8>)
    ensures
        ({
            let s = tile_header(palette, gfx, map) + rest;
            &&& tile_header(palette, gfx, map).len() == 16
            &&& u32_at(s, 0) == TILE_MAGIC
            &&& u32_at(s, 4) == palette
            &&& u32_at(s, 8) == gfx
            &&& u32_at(s, 12) == map
        }),
{
    let s = tile_header(palette, gfx, map) + rest;
    assert(s.subrange(0, 4) =~= u32_le(TILE_MAGIC));
    lemma_u32_at(s, 0, TILE_MAGIC);
    assert(s.subrange(4, 8) =~= u32_le(palette));
    lemma_u32_at(s, 4, palette);
    assert(s.subrange(8, 12) =~= u32_le(gfx));
    lemma_u32_at(s, 8, gfx);
    assert(s.subrange(12, 16) =~= u32_le(map));
    lemma_u32_at(s, 12, map);
}

/// Every encoded bitmap background with matching dimensions parses back to its
/// parts, whatever follows it.
pub proof fn law_bitmap_round_trip(width: u16, height: u16, pixels: Seq<u16>, tail: Seq<u8>)
    requires
        pixels.len() == width * height,
    ensures
        ({
            let s = bitmap_blob(width, height, pixels) + tail;
            &&& is_bitmap_blob(s)
            &&& u16_at(s, 4) == width
            &&& u16s_at(s, 12, u32_at(s, 8) as nat) == pixels
        }),
{
    let s = bitmap_blob(width, height, pixels) + tail;
    assert(width * height <= 0xFFFF * 0xFFFF) by (nonlinear_arith)
        requires
            width <= 0xFFFF,
            height <= 0xFFFF,
    ;
    lemma_u16s_le(pixels);
    assert(s.subrange(0, 4) =~= u32_le(BITMAP_MAGIC));
    lemma_u32_at(s, 0, BITMAP_MAGIC);
    assert(s.subrange(4, 6) =~= u16_le(width));
    lemma_u16_at(s, 4, width);
    assert(s.subrange(6, 8) =~= u16_le(height));
    lemma_u16_at(s, 6, height);
    assert(s.subrange(8, 12) =~= u32_le(pixels.len() as u32));
    lemma_u32_at(s, 8, pixels.len() as u32);
    assert(s.subrange(12, 12int + 2 * pixels.len()) =~= u16s_le(pixels));
    lemma_u16s_at(s, 12, pixels);
}

/// A tile blob that is cut short anywhere no longer parses.
pub proof fn law_truncated_tile_is_rejected(palette: Seq<u16>, gfx: Seq<u8>, map: Seq<u8>, keep: int)
    requires
        palette.len() <= u32::MAX,
        gfx.len() <= u32::MAX,
        map.len() <= u32::MAX,
        0 <= keep < tile_blob(palette, gfx, map).len(),
    ensures
        !is_tile_blob(tile_blob(palette, gfx, map).subrange(0, keep)),
{
    let s = tile_blob(palette, gfx, map);
    law_tile_round_trip(palette, gfx, map, Seq::empty());
    assert(s + Seq::<u8>::empty() =~= s);
    lemma_cut_tile(s, keep);
}

/// A bitmap blob that is cut short anywhere no longer parses.
pub proof fn law_truncated_bitmap_is_rejected(width: u16, height: u16, pixels: Seq<u16>, keep: int)
    requires
        pixels.len() == width * height,
        0 <= keep < bitmap_blob(width, height, pixels).len(),
    ensures
        !is_bitmap_blob(bitmap_blob(width, height, pixels).subrange(0, keep)),
{
    let s = bitmap_blob(width, height, pixels);
    let t = s.subrange(0, keep);
    law_bitmap_round_trip(width, height, pixels, Seq::empty());
    assert(s + Seq::<u8>::empty() =~= s);
    lemma_u16s_le(pixels);
    assert(u16s_at(s, 12, u32_at(s, 8) as nat).len() == pixels.len());
    if keep >= 12 {
        assert(u32_at(t, 8) == u32_at(s, 8));
    }
}

/// A blob that is cut short is none.
proof fn lemma_cut_tile(s: Seq<u8>, keep: int)
    requires
        tile_end(s) == s.len(),
        0 <= keep < s.len(),
    ensures
        !is_tile_blob(s.subrange(0, keep)),
{
    let t = s.subrange(0, keep);
    if keep >= 16 {
        assert(u32_at(t, 4) == u32_at(s, 4));
        assert(u32_at(t, 8) == u32_at(s, 8));
        assert(u32_at(t, 12) == u32_at(s, 12));
    }
}

/// Descriptor for one baked background.
pub struct Baked {
    /// Where the source image is.
    pub input: String,
    /// What it is baked as.
    pub kind: Kind,
    /// Path components of the baked file below the backgrounds root.
    pub rel: Vec<String>,
    /// Modules and name of the generated constant.
    pub const_path: Vec<String>,
    /// Path that the constant resolves to.
    pub nitrofs_path: String,
}

impl Baked {
    /// The descriptor without its kind, by its texts.
    pub open spec fn text(self) -> AssetText {
        AssetText {
            input: self.input@,
            rel: texts(self.rel@),
            const_path: texts(self.const_path@),
            nitrofs_path: self.nitrofs_path@,
        }
    }

    /// The generated constant, by its texts.
    pub open spec fn entry(self) -> EntryText {
        (texts(self.const_path@), self.nitrofs_path@)
    }
}

/// A set of baked backgrounds.
pub struct Built {
    pub items: Vec<Baked>,
}

impl Built {
    /// Where the source images are, in order.
    pub fn inputs(&self) -> (r: Vec<String>)
        ensures
            texts(r@) == self.items@.map_values(|b: Baked| b.input@),
    {
        let mut out: Vec<String> = Vec::new();
        let mut i: usize = 0;
        while i < self.items.len()
            invariant
                i <= self.items.len(),
                texts(out@) == self.items@.take(i as int).map_values(|b: Baked| b.input@),
            decreases self.items.len() - i,
        {
            let ghost before = out@;
            out.push(self.items[i].input.clone());
            assert(texts(out@) =~= texts(before).push(self.items@[i as int].input@));
            assert(self.items@.take(i + 1).map_values(|b: Baked| b.input@) =~= self.items@.take(
                i as int,
            ).map_values(|b: Baked| b.input@).push(self.items@[i as int].input@));
            i = i + 1;
        }
        assert(self.items@.take(self.items.len() as int) =~= self.items@);
        out
    }
}

/// The kind that a path below the source root bakes to: its first directory says
/// which. Elsewhere nothing is baked.
pub open spec fn kind_of(path: Seq<Seq<char>>) -> Option<Kind> {
    if path.len() == 0 {
        None
    } else if path[0] == TILED_SUBDIR@ {
        Some(Kind::Tile)
    } else if path[0] == BITMAP_SUBDIR@ {
        Some(Kind::Bitmap)
    } else {
        None
    }
}

/// How a found file is baked: a PNG below `tiled/` or `bitmap/`.
pub open spec fn found_text(file: FoundFile) -> Option<AssetText> {
    let dirs = texts(file.dirs@);
    match kind_of(dirs) {
        Some(kind) => if extension_of(file.file_name@) == Some("png"@) {
            Some(
                asset_text(
                    file.input@,
                    NITROFS_SUBDIR@,
                    dirs,
                    stem_of(file.file_name@),
                    kind_extension(kind),
                ),
            )
        } else {
            None
        },
        None => None,
    }
}

/// Which kind a path bakes to.
fn kind_for(path: &Vec<String>) -> (r: Option<Kind>)
    ensures
        r == kind_of(texts(path@)),
{
    if path.len() == 0 {
        return None;
    }
    assert(texts(path@)[0] == path@[0]@);
    if same_text(path[0].as_str(), TILED_SUBDIR) {
        Some(Kind::Tile)
    } else if same_text(path[0].as_str(), BITMAP_SUBDIR) {
        Some(Kind::Bitmap)
    } else {
        None
    }
}

/// Name the baked file of a found file, if it is baked.
fn bake_target(file: &FoundFile) -> (r: Option<AssetFile>)
    ensures
        r is Some <==> found_text(*file) is Some,
        r matches Some(a) ==> a.text() == found_text(*file)->0,
{
    let kind: Kind = match kind_for(&file.dirs) {
        Some(k) => k,
        None => return None,
    };
    let (stem, ext) = split_file_name(file.file_name.as_str());
    match ext {
        Some(e) => {
            if same_text(e.as_str(), "png") {
                Some(asset_file(&file.input, NITROFS_SUBDIR, &file.dirs, &stem, kind.extension()))
            } else {
                None
            }
        },
        None => None,
    }
}

/// The texts of a list of found files that are baked, in the order found.
pub open spec fn found_texts(files: Seq<FoundFile>) -> Seq<AssetText>
    decreases files.len(),
{
    if files.len() == 0 {
        Seq::empty()
    } else {
        let rest = found_texts(files.drop_last());
        match found_text(files.last()) {
            Some(a) => rest.push(a),
            None => rest,
        }
    }
}

/// Collect the found files that are baked, sorted by output path.
fn collect_assets(files: &[FoundFile]) -> (r: Vec<AssetFile>)
    ensures
        asset_texts(r@) == sort_assets(found_texts(files@)),
{
    let mut out: Vec<AssetFile> = Vec::new();
    let mut i: usize = 0;
    assert(asset_texts(out@) =~= sort_assets(found_texts(files@.take(0))));
    while i < files.len()
        invariant
            i <= files.len(),
            asset_texts(out@) == sort_assets(found_texts(files@.take(i as int))),
        decreases files.len() - i,
    {
        proof {
            assert(files@.take(i + 1).drop_last() =~= files@.take(i as int));
            assert(files@.take(i + 1).last() == files@[i as int]);
        }
        let ghost rest = found_texts(files@.take(i as int));
        if let Some(a) = bake_target(&files[i]) {
            assert(rest.push(a.text()).drop_last() =~= rest);
            insert_asset_file(&mut out, a);
        }
        i = i + 1;
    }
    assert(files@.take(files.len() as int) =~= files@);
    out
}

/// Describe every PNG found under `tiled/` or `bitmap/`, sorted by output path.
pub fn discover(files: &[FoundFile]) -> (r: Vec<Baked>)
    ensures
        r@.map_values(|b: Baked| b.text()) == sort_assets(found_texts(files@)),
        forall|i: int|
            0 <= i < r.len() ==> {
                &&& Some((#[trigger] r@[i]).kind) == kind_of(texts(r@[i].rel@))
                &&& r@[i].const_path.len() >= 1
            },
{
    let mut assets: Vec<AssetFile> = collect_assets(files);
    let ghost sorted = asset_texts(assets@);
    proof {
        lemma_sorted_kinds(files@);
    }
    let mut out: Vec<Baked> = Vec::new();
    let n: usize = assets.len();
    while assets.len() > 0
        invariant
            assets.len() + out.len() == n,
            sorted.len() == n,
            asset_texts(assets@) == sorted.skip(out.len() as int),
            out@.map_values(|b: Baked| b.text()) == sorted.take(out.len() as int),
            forall|i: int|
                0 <= i < n ==> kind_of((#[trigger] sorted[i]).rel) is Some
                    && sorted[i].const_path.len() >= 1,
            forall|i: int|
                0 <= i < out.len() ==> {
                    &&& Some((#[trigger] out@[i]).kind) == kind_of(texts(out@[i].rel@))
                    &&& out@[i].const_path.len() >= 1
                },
        decreases assets.len(),
    {
        let ghost k = out.len() as int;
        let ghost before = out@;
        assert(asset_texts(assets@)[0] == assets@[0].text());
        assert(asset_texts(assets@)[0] == sorted[k]);
        let ghost held = assets@;
        let a: AssetFile = assets.remove(0);
        assert forall|i: int| 0 <= i < assets.len() implies asset_texts(assets@)[i] == sorted.skip(
            k + 1,
        )[i] by {
            assert(assets@[i] == held[i + 1]);
            assert(asset_texts(held)[i + 1] == sorted.skip(k)[i + 1]);
        }
        assert(asset_texts(assets@) =~= sorted.skip(k + 1));
        let kind: Kind = match kind_for(&a.rel) {
            Some(kind) => kind,
            None => {
                assert(false);
                Kind::Tile
            },
        };
        let b = Baked {
            input: a.input,
            kind,
            rel: a.rel,
            const_path: a.const_path,
            nitrofs_path: a.nitrofs_path,
        };
        assert(b.text() == sorted[k]);
        assert(texts(b.const_path@).len() >= 1);
        out.push(b);
        assert(out@.map_values(|b: Baked| b.text()) =~= before.map_values(
            |b: Baked| b.text(),
        ).push(sorted[k]));
        assert(sorted.take(k + 1) =~= sorted.take(k).push(sorted[k]));
    }
    assert(sorted.take(n as int) =~= sorted);
    out
}

/// Every asset that is baked has a kind, before and after sorting.
proof fn lemma_sorted_kinds(files: Seq<FoundFile>)
    ensures
        forall|i: int|
            0 <= i < sort_assets(found_texts(files)).len() ==> {
                &&& kind_of((#[trigger] sort_assets(found_texts(files))[i]).rel) is Some
                &&& sort_assets(found_texts(files))[i].const_path.len() >= 1
            },
{
    broadcast use vstd::seq_lib::group_to_multiset_ensures;

    let found = found_texts(files);
    let sorted = sort_assets(found);
    law_sort_is_an_ordered_permutation(found);
    lemma_found_kinds(files);
    assert forall|i: int| 0 <= i < sorted.len() implies kind_of((#[trigger] sorted[i]).rel) is Some
        && sorted[i].const_path.len() >= 1 by {
        assert(sorted.contains(sorted[i]));
        assert(sorted.to_multiset().count(sorted[i]) > 0);
        assert(found.to_multiset().count(sorted[i]) > 0);
        assert(found.contains(sorted[i]));
    }
}

proof fn lemma_found_kinds(files: Seq<FoundFile>)
    ensures
        forall|a: AssetText| #[trigger]
            found_texts(files).contains(a) ==> kind_of(a.rel) is Some && a.const_path.len() >= 1,
    decreases files.len(),
{
    if files.len() > 0 {
        let init = files.drop_last();
        lemma_found_kinds(init);
        let rest = found_texts(init);
        assert forall|a: AssetText| #[trigger] found_texts(files).contains(a) implies kind_of(
            a.rel,
        ) is Some && a.const_path.len() >= 1 by {
            let w = choose|w: int| 0 <= w < found_texts(files).len() && found_texts(files)[w] == a;
            if w < rest.len() {
                assert(rest[w] == a);
                assert(rest.contains(a));
            } else {
                let dirs = texts(files.last().dirs@);
                assert(a.rel[0] == dirs[0]);
            }
        }
    }
}

/// What [`discover`] lists; no image is read, so the constants can be generated
/// even where nothing can be baked.
pub fn predict_dir(files: &[FoundFile]) -> (r: Vec<Baked>)
    ensures
        r@.map_values(|b: Baked| b.text()) == sort_assets(found_texts(files@)),
        forall|i: int|
            0 <= i < r.len() ==> {
                &&& Some((#[trigger] r@[i]).kind) == kind_of(texts(r@[i].rel@))
                &&& r@[i].const_path.len() >= 1
            },
{
    discover(files)
}

/// The comment in front of the generated constants.
pub const BANNER: &'static str =
    "// @generated by png2bg from assets/backgrounds/{tiled,bitmap}/**/*.png.\n// Each constant is a NUL-terminated NitroFS path you can pass to\n// `Backgrounds::set_tile` (under `tiled::`) or `Backgrounds::set_bitmap`\n// (under `bitmap::`).\n";

/// Generate the source that declares one constant per baked background, with
/// subdirectories as nested modules.
pub fn emit_rust_consts(items: &[Baked]) -> (s: String)
    requires
        forall|i: int| 0 <= i < items.len() ==> (#[trigger] items@[i]).const_path.len() >= 1,
    ensures
        s@ == const_module(BANNER@, items@.map_values(|b: Baked| b.entry())),
{
    let mut entries: Vec<ConstEntry> = Vec::new();
    let mut i: usize = 0;
    while i < items.len()
        invariant
            i <= items.len(),
            entry_texts(entries@) == items@.take(i as int).map_values(|b: Baked| b.entry()),
        decreases items.len() - i,
    {
        let ghost before = entries@;
        let e = ConstEntry {
            path: copy_texts(&items[i].const_path),
            target: items[i].nitrofs_path.clone(),
        };
        let ghost t = e.text();
        entries.push(e);
        assert(entry_texts(entries@) =~= entry_texts(before).push(t));
        assert(items@.take(i + 1).map_values(|b: Baked| b.entry()) =~= items@.take(
            i as int,
        ).map_values(|b: Baked| b.entry()).push(items@[i as int].entry()));
        i = i + 1;
    }
    assert(items@.take(items.len() as int) =~= items@);
    emit_const_module(BANNER, &entries)
}

/// Is this the start of a PNG file, up to and with the size in its header?
pub open spec fn is_png_start(png: Seq<u8>) -> bool {
    &&& png.len() >= 24
    &&& png.take(8) == seq![0x89u8, 0x50, 0x4e, 0x47, 0x0d, 0x0a, 0x1a, 0x0a]
    &&& png.subrange(12, 16) == seq![0x49u8, 0x48, 0x44, 0x52]
}

/// The width and height in a PNG's header, or why there are none.
pub open spec fn png_size(path: Seq<char>, png: Seq<u8>) -> Result<(u16, u16), Seq<char>> {
    let w = u32_be_at(png, 16);
    let h = u32_be_at(png, 20);
    if !is_png_start(png) {
        Err(path + " is not a PNG"@)
    } else if w > 0xffff || h > 0xffff {
        Err(path + " is too big ("@ + decimal(w as nat) + "x"@ + decimal(h as nat) + ")"@)
    } else {
        Ok((w as u16, h as u16))
    }
}

/// Read width and height from a PNG's header chunk. The pixels are not decoded.
pub fn png_dimensions(path: &str, png: &[u8]) -> (r: Result<(u16, u16), String>)
    ensures
        r matches Ok(size) ==> png_size(path@, png@) == Ok::<(u16, u16), Seq<char>>(size),
        r matches Err(e) ==> png_size(path@, png@) == Err::<(u16, u16), Seq<char>>(e@),
{
    let start = png.len() >= 24 && png[0] == 0x89 && png[1] == 0x50 && png[2] == 0x4e && png[3]
        == 0x47 && png[4] == 0x0d && png[5] == 0x0a && png[6] == 0x1a && png[7] == 0x0a && png[12]
        == 0x49 && png[13] == 0x48 && png[14] == 0x44 && png[15] == 0x52;
    proof {
        let sig = seq![0x89u8, 0x50, 0x4e, 0x47, 0x0d, 0x0a, 0x1a, 0x0a];
        let tag = seq![0x49u8, 0x48, 0x44, 0x52];
        if png.len() >= 24 {
            if start {
                assert(png@.take(8) =~= sig);
                assert(png@.subrange(12, 16) =~= tag);
            }
            if is_png_start(png@) {
                assert forall|i: int| 0 <= i < 8 implies #[trigger] png@[i] == sig[i] by {
                    assert(png@.take(8)[i] == png@[i]);
                }
                assert forall|i: int| 0 <= i < 4 implies #[trigger] png@[12 + i] == tag[i] by {
                    assert(png@.subrange(12, 16)[i] == png@[12 + i]);
                }
                assert(png@[12int + 0] == 0x49 && png@[12int + 1] == 0x48);
                assert(png@[12int + 2] == 0x44 && png@[12int + 3] == 0x52);
            }
        }
        assert(start == is_png_start(png@));
    }
    if !start {
        let mut e: String = String::new();
        push_text(&mut e, path);
        push_text(&mut e, " is not a PNG");
        assert(e@ =~= path@ + " is not a PNG"@);
        return Err(e);
    }
    let w: u32 = read_u32_be(png, 16);
    let h: u32 = read_u32_be(png, 20);
    if w > 0xffff || h > 0xffff {
        let mut e: String = String::new();
        push_text(&mut e, path);
        push_text(&mut e, " is too big (");
        push_text(&mut e, to_decimal(w as u64).as_str());
        push_text(&mut e, "x");
        push_text(&mut e, to_decimal(h as u64).as_str());
        push_text(&mut e, ")");
        assert(e@ =~= path@ + " is too big ("@ + decimal(w as nat) + "x"@ + decimal(h as nat)
            + ")"@);
        return Err(e);
    }
    Ok((w as u16, h as u16))
}

/// Why an image of this size cannot be a bitmap background, if it cannot.
pub open spec fn bitmap_size_error(path: Seq<char>, width: u16, height: u16) -> Option<Seq<char>> {
    if width != BITMAP_REQUIRED_WIDTH {
        Some(
            path + " is "@ + decimal(width as nat) + "px wide; bitmap backgrounds require "@
                + decimal(BITMAP_REQUIRED_WIDTH as nat),
        )
    } else if height == 0 || height > 256 {
        Some(
            path + " is "@ + decimal(height as nat)
                + "px tall; bitmap backgrounds need 1..=256"@,
        )
    } else {
        None
    }
}

/// Check that an image can be a bitmap background: 256 pixels wide and 1 to 256 tall.
pub fn check_bitmap_size(path: &str, width: u16, height: u16) -> (r: Result<(), String>)
    ensures
        r is Ok <==> width == BITMAP_REQUIRED_WIDTH && 1 <= height <= 256,
        r matches Err(e) ==> bitmap_size_error(path@, width, height) == Some(e@),
{
    if width != BITMAP_REQUIRED_WIDTH {
        let mut e: String = String::new();
        push_text(&mut e, path);
        push_text(&mut e, " is ");
        push_text(&mut e, to_decimal(width as u64).as_str());
        push_text(&mut e, "px wide; bitmap backgrounds require ");
        push_text(&mut e, to_decimal(BITMAP_REQUIRED_WIDTH as u64).as_str());
        assert(e@ =~= path@ + " is "@ + decimal(width as nat)
            + "px wide; bitmap backgrounds require "@ + decimal(BITMAP_REQUIRED_WIDTH as nat));
        return Err(e);
    }
    if height == 0 || height > 256 {
        let mut e: String = String::new();
        push_text(&mut e, path);
        push_text(&mut e, " is ");
        push_text(&mut e, to_decimal(height as u64).as_str());
        push_text(&mut e, "px tall; bitmap backgrounds need 1..=256");
        assert(e@ =~= path@ + " is "@ + decimal(height as nat)
            + "px tall; bitmap backgrounds need 1..=256"@);
        return Err(e);
    }
    Ok(())
}

/// Check that an image can be cut into tiles: both sides are multiples of 8.
pub fn check_tile_size(path: &str, width: u16, height: u16) -> (r: Result<(), String>)
    ensures
        r is Ok <==> width % 8 == 0 && height % 8 == 0,
        r matches Err(e) ==> e@ == path@ + " is "@ + decimal(width as nat) + "x"@ + decimal(
            height as nat,
        ) + "; tile backgrounds need multiples of 8"@,
{
    if width % 8 != 0 || height % 8 != 0 {
        let mut e: String = String::new();
        push_text(&mut e, path);
        push_text(&mut e, " is ");
        push_text(&mut e, to_decimal(width as u64).as_str());
        push_text(&mut e, "x");
        push_text(&mut e, to_decimal(height as u64).as_str());
        push_text(&mut e, "; tile backgrounds need multiples of 8");
        assert(e@ =~= path@ + " is "@ + decimal(width as nat) + "x"@ + decimal(height as nat)
            + "; tile backgrounds need multiples of 8"@);
        return Err(e);
    }
    Ok(())
}

/// Decode a palette of little-endian halfwords.
pub fn read_palette(pal_bytes: &[u8]) -> (r: Result<Vec<u16>, String>)
    ensures
        r is Ok <==> pal_bytes.len() % 2 == 0,
        r matches Ok(p) ==> p@ == u16s_at(pal_bytes@, 0, (pal_bytes@.len() / 2) as nat),
        r matches Err(e) ==> e@ == "palette length "@ + decimal(pal_bytes@.len())
            + " not a multiple of 2 (u16)"@,
{
    if pal_bytes.len() % 2 != 0 {
        let mut e: String = String::new();
        push_text(&mut e, "palette length ");
        push_text(&mut e, to_decimal(pal_bytes.len() as u64).as_str());
        push_text(&mut e, " not a multiple of 2 (u16)");
        assert(e@ =~= "palette length "@ + decimal(pal_bytes@.len())
            + " not a multiple of 2 (u16)"@);
        return Err(e);
    }
    Ok(read_u16s(pal_bytes, 0, pal_bytes.len() / 2))
}

/// Make a tile background of the image converter's outputs: tiles, map and palette.
pub fn bake_tile(gfx: Vec<u8>, map: Vec<u8>, pal_bytes: &[u8]) -> (r: Result<TileBg, String>)
    ensures
        r is Ok <==> pal_bytes.len() % 2 == 0,
        r matches Ok(bg) ==> {
            &&& bg.gfx@ == gfx@
            &&& bg.map@ == map@
            &&& bg.palette@ == u16s_at(pal_bytes@, 0, (pal_bytes@.len() / 2) as nat)
        },
        r matches Err(e) ==> e@ == "palette length "@ + decimal(pal_bytes@.len())
            + " not a multiple of 2 (u16)"@,
{
    match read_palette(pal_bytes) {
        Ok(palette) => Ok(TileBg { palette, gfx, map }),
        Err(e) => Err(e),
    }
}

/// Why these pixels cannot be a bitmap background of this size, if they cannot.
pub open spec fn bitmap_error(path: Seq<char>, width: u16, height: u16, len: nat) -> Option<
    Seq<char>,
> {
    if bitmap_size_error(path, width, height) is Some {
        bitmap_size_error(path, width, height)
    } else if len != width * height * 2 {
        Some(
            path + " gfx is "@ + decimal(len) + " bytes, expected "@ + decimal(
                (width * height * 2) as nat,
            ) + " for "@ + decimal(width as nat) + "x"@ + decimal(height as nat) + " 16bpp"@,
        )
    } else {
        None
    }
}

/// Make a bitmap background of the image converter's pixels, two bytes each.
pub fn bake_bitmap(path: &str, width: u16, height: u16, bytes: &[u8]) -> (r: Result<
    BitmapBg,
    String,
>)
    ensures
        r is Ok <==> width == BITMAP_REQUIRED_WIDTH && 1 <= height <= 256 && bytes@.len() == width
            * height * 2,
        r matches Ok(bg) ==> {
            &&& bg.width == width
            &&& bg.height == height
            &&& bg.pixels@ == u16s_at(bytes@, 0, (width * height) as nat)
        },
        r matches Err(e) ==> bitmap_error(path@, width, height, bytes@.len()) == Some(e@),
{
    match check_bitmap_size(path, width, height) {
        Ok(_) => {},
        Err(e) => {
            return Err(e);
        },
    }
    let expected: usize = 256 * height as usize * 2;
    assert(expected == width * height * 2);
    if bytes.len() != expected {
        let mut e: String = String::new();
        push_text(&mut e, path);
        push_text(&mut e, " gfx is ");
        push_text(&mut e, to_decimal(bytes.len() as u64).as_str());
        push_text(&mut e, " bytes, expected ");
        push_text(&mut e, to_decimal(expected as u64).as_str());
        push_text(&mut e, " for ");
        push_text(&mut e, to_decimal(width as u64).as_str());
        push_text(&mut e, "x");
        push_text(&mut e, to_decimal(height as u64).as_str());
        push_text(&mut e, " 16bpp");
        assert(e@ =~= path@ + " gfx is "@ + decimal(bytes@.len()) + " bytes, expected "@ + decimal(
            (width * height * 2) as nat,
        ) + " for "@ + decimal(width as nat) + "x"@ + decimal(height as nat) + " 16bpp"@);
        return Err(e);
    }
    Ok(BitmapBg { width, height, pixels: read_u16s(bytes, 0, expected / 2) })
}

} // verus!
