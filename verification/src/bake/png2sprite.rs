//! Sprite baking: the encoder for the `.sprite` blob.

use crate::bake::const_tree::{
    const_module, copy_texts, emit_const_module, entry_texts, texts, ConstEntry, EntryText,
};
use crate::bake::files::{
    asset_file, asset_text, asset_texts, extension_of, insert_asset_file,
    law_sort_is_an_ordered_permutation, sort_assets, split_file_name, stem_of, AssetFile,
    AssetText, FoundFile,
};
use crate::bake::png2bg::read_palette;
use crate::bytes::{
    lemma_u16_at, lemma_u16s_at, lemma_u16s_le, lemma_u32_at, push_bytes, push_u16, push_u16s,
    push_u32, u16_at, u16_le, u16s_at, u16s_le, u32_at, u32_le,
};
use crate::sprite::asset::{is_sprite_blob, sprite_end, sprite_gfx_off};
use crate::strings::{decimal, push_text, same_text, to_decimal};
use vstd::prelude::*;

verus! {

/// ASCII `"BSP1"`, low byte first: the magic prefix of a baked sprite.
pub const ASSET_MAGIC: u32 = 0x3150_5342;

/// Subdirectory under the filesystem root that holds baked sprites.
pub const NITROFS_SUBDIR: &'static str = "sprites";

/// What the image tool is told for a sprite: 4bpp tiles with colour 0 clear, a
/// 16-bit palette, plain binary files.
pub const SPRITE_FLAGS: [&'static str; 7] = ["-gt", "-gB4", "-gT0", "-p", "-pu16", "-ftb", "-fh!"];

/// Bake options for a single image.
#[derive(Clone, Copy, Debug)]
pub struct Options {
    /// Sprite width in pixels.
    pub width: u16,
    /// Sprite height in pixels.
    pub height: u16,
}

impl Default for Options {
    fn default() -> (o: Self)
        ensures
            o.width == 16,
            o.height == 16,
    {
        Options { width: 16, height: 16 }
    }
}

/// A baked sprite, ready to encode.
#[derive(Clone, Debug)]
pub struct Sprite {
    pub width: u16,
    pub height: u16,
    /// RGB15 palette; the first entry is transparent.
    pub palette: Vec<u16>,
    /// 4bpp tile gfx.
    pub gfx: Vec<u8>,
}

/// The sprite blob of these parts.
pub open spec fn sprite_blob(width: u16, height: u16, palette: Seq<u16>, gfx: Seq<u8>) -> Seq<u8> {
    u32_le(ASSET_MAGIC) + u16_le(width) + u16_le(height) + u32_le(palette.len() as u32) + u32_le(
        gfx.len() as u32,
    ) + u16s_le(palette) + gfx
}

/// Serialise a [`Sprite`] to the `.sprite` format.
pub fn encode(sprite: &Sprite) -> (out: Vec<u8>)
    ensures
        out@ == sprite_blob(sprite.width, sprite.height, sprite.palette@, sprite.gfx@),
{
    let mut out: Vec<u8> = Vec::new();
    push_u32(&mut out, ASSET_MAGIC);
    push_u16(&mut out, sprite.width);
    push_u16(&mut out, sprite.height);
    push_u32(&mut out, sprite.palette.len() as u32);
    push_u32(&mut out, sprite.gfx.len() as u32);
    push_u16s(&mut out, sprite.palette.as_slice());
    push_bytes(&mut out, sprite.gfx.as_slice());
    assert(out@ =~= sprite_blob(sprite.width, sprite.height, sprite.palette@, sprite.gfx@));
    out
}

/// Every encoded sprite parses back to its parts, whatever follows it.
pub proof fn law_sprite_round_trip(
    width: u16,
    height: u16,
    palette: Seq<u16>,
    gfx: Seq<u8>,
    tail: Seq<u8>,
)
    requires
        palette.len() <= u32::MAX,
        gfx.len() <= u32::MAX,
    ensures
        ({
            let s = sprite_blob(width, height, palette, gfx) + tail;
            &&& is_sprite_blob(s)
            &&& sprite_end(s) == sprite_blob(width, height, palette, gfx).len()
            &&& u16_at(s, 4) == width
            &&& u16_at(s, 6) == height
            &&& u16s_at(s, 16, u32_at(s, 8) as nat) == palette
            &&& s.subrange(sprite_gfx_off(s), sprite_end(s)) == gfx
        }),
{
    let s = sprite_blob(width, height, palette, gfx) + tail;
    lemma_u16s_le(palette);
    assert(s.subrange(0, 4) =~= u32_le(ASSET_MAGIC));
    lemma_u32_at(s, 0, ASSET_MAGIC);
    assert(s.subrange(4, 6) =~= u16_le(width));
    lemma_u16_at(s, 4, width);
    assert(s.subrange(6, 8) =~= u16_le(height));
    lemma_u16_at(s, 6, height);
    assert(s.subrange(8, 12) =~= u32_le(palette.len() as u32));
    lemma_u32_at(s, 8, palette.len() as u32);
    assert(s.subrange(12, 16) =~= u32_le(gfx.len() as u32));
    lemma_u32_at(s, 12, gfx.len() as u32);
    assert(s.subrange(16, 16int + 2 * palette.len()) =~= u16s_le(palette));
    lemma_u16s_at(s, 16, palette);
    assert(s.subrange(sprite_gfx_off(s), sprite_end(s)) =~= gfx);
}

/// A sprite blob that loses any of its last bytes no longer parses.
pub proof fn law_truncated_sprite_is_rejected(
    width: u16,
    height: u16,
    palette: Seq<u16>,
    gfx: Seq<u8>,
    keep: int,
)
    requires
        palette.len() <= u32::MAX,
        gfx.len() <= u32::MAX,
        0 <= keep < sprite_blob(width, height, palette, gfx).len(),
    ensures
        !is_sprite_blob(sprite_blob(width, height, palette, gfx).subrange(0, keep)),
{
    let s = sprite_blob(width, height, palette, gfx);
    law_sprite_round_trip(width, height, palette, gfx, Seq::empty());
    assert(s + Seq::<u8>::empty() =~= s);
    lemma_cut_sprite(s, keep);
}

/// A blob that is cut short is none.
proof fn lemma_cut_sprite(s: Seq<u8>, keep: int)
    requires
        sprite_end(s) == s.len(),
        0 <= keep < s.len(),
    ensures
        !is_sprite_blob(s.subrange(0, keep)),
{
    let t = s.subrange(0, keep);
    if keep >= 16 {
        assert(u32_at(t, 8) == u32_at(s, 8));
        assert(u32_at(t, 12) == u32_at(s, 12));
    }
}

/// Descriptor for one baked sprite.
pub struct Baked {
    /// Where the source image is.
    pub input: String,
    /// Path components of the baked file below the sprites root.
    pub rel: Vec<String>,
    /// Modules and name of the generated constant.
    pub const_path: Vec<String>,
    /// Path that the constant resolves to.
    pub nitrofs_path: String,
}

impl Baked {
    /// The descriptor by its texts.
    pub open spec fn text(self) -> AssetText {
        AssetText {
            input: self.input@,
            rel: texts(self.rel@),
            const_path: texts(self.const_path@),
            nitrofs_path: self.nitrofs_path@,
        }
    }

    /// The generated constant, by its texts.
    pub open spec fn entry(self) -> EntryText {
        (texts(self.const_path@), self.nitrofs_path@)
    }
}

/// A set of baked sprites.
pub struct Built {
    pub items: Vec<Baked>,
}

impl Built {
    /// Where the source images are, in order.
    pub fn inputs(&self) -> (r: Vec<String>)
        ensures
            texts(r@) == self.items@.map_values(|b: Baked| b.input@),
    {
        let mut out: Vec<String> = Vec::new();
        let mut i: usize = 0;
        while i < self.items.len()
            invariant
                i <= self.items.len(),
                texts(out@) == self.items@.take(i as int).map_values(|b: Baked| b.input@),
            decreases self.items.len() - i,
        {
            let ghost before = out@;
            out.push(self.items[i].input.clone());
            assert(texts(out@) =~= texts(before).push(self.items@[i as int].input@));
            assert(self.items@.take(i + 1).map_values(|b: Baked| b.input@) =~= self.items@.take(
                i as int,
            ).map_values(|b: Baked| b.input@).push(self.items@[i as int].input@));
            i = i + 1;
        }
        assert(self.items@.take(self.items.len() as int) =~= self.items@);
        out
    }
}

/// How a found file is baked, if it is a PNG.
pub open spec fn found_text(file: FoundFile) -> Option<AssetText> {
    if extension_of(file.file_name@) == Some("png"@) {
        Some(
            asset_text(
                file.input@,
                NITROFS_SUBDIR@,
                texts(file.dirs@),
                stem_of(file.file_name@),
                "sprite"@,
            ),
        )
    } else {
        None
    }
}

/// Name the baked file of a found file, if it is baked.
fn bake_target(file: &FoundFile) -> (r: Option<AssetFile>)
    ensures
        r is Some <==> found_text(*file) is Some,
        r matches Some(a) ==> a.text() == found_text(*file)->0,
{
    let (stem, ext) = split_file_name(file.file_name.as_str());
    match ext {
        Some(e) => {
            if same_text(e.as_str(), "png") {
                Some(asset_file(&file.input, NITROFS_SUBDIR, &file.dirs, &stem, "sprite"))
            } else {
                None
            }
        },
        None => None,
    }
}

/// The texts of a list of found files that are baked, in the order found.
pub open spec fn found_texts(files: Seq<FoundFile>) -> Seq<AssetText>
    decreases files.len(),
{
    if files.len() == 0 {
        Seq::empty()
    } else {
        let rest = found_texts(files.drop_last());
        match found_text(files.last()) {
            Some(a) => rest.push(a),
            None => rest,
        }
    }
}

/// Collect the found files that are baked, sorted by output path.
fn collect_assets(files: &[FoundFile]) -> (r: Vec<AssetFile>)
    ensures
        asset_texts(r@) == sort_assets(found_texts(files@)),
{
    let mut out: Vec<AssetFile> = Vec::new();
    let mut i: usize = 0;
    assert(asset_texts(out@) =~= sort_assets(found_texts(files@.take(0))));
    while i < files.len()
        invariant
            i <= files.len(),
            asset_texts(out@) == sort_assets(found_texts(files@.take(i as int))),
        decreases files.len() - i,
    {
        proof {
            assert(files@.take(i + 1).drop_last() =~= files@.take(i as int));
            assert(files@.take(i + 1).last() == files@[i as int]);
        }
        let ghost rest = found_texts(files@.take(i as int));
        if let Some(a) = bake_target(&files[i]) {
            assert(rest.push(a.text()).drop_last() =~= rest);
            insert_asset_file(&mut out, a);
        }
        i = i + 1;
    }
    assert(files@.take(files.len() as int) =~= files@);
    out
}

/// Every asset that is baked has a constant name, before and after sorting.
proof fn lemma_sorted_names(files: Seq<FoundFile>)
    ensures
        forall|i: int|
            0 <= i < sort_assets(found_texts(files)).len() ==> (#[trigger] sort_assets(
                found_texts(files),
            )[i]).const_path.len() >= 1,
{
    broadcast use vstd::seq_lib::group_to_multiset_ensures;

    let found = found_texts(files);
    let sorted = sort_assets(found);
    law_sort_is_an_ordered_permutation(found);
    lemma_found_names(files);
    assert forall|i: int| 0 <= i < sorted.len() implies (#[trigger] sorted[i]).const_path.len()
        >= 1 by {
        assert(sorted.contains(sorted[i]));
        assert(sorted.to_multiset().count(sorted[i]) > 0);
        assert(found.to_multiset().count(sorted[i]) > 0);
        assert(found.contains(sorted[i]));
    }
}

proof fn lemma_found_names(files: Seq<FoundFile>)
    ensures
        forall|a: AssetText| #[trigger]
            found_texts(files).contains(a) ==> a.const_path.len() >= 1,
    decreases files.len(),
{
    if files.len() > 0 {
        let init = files.drop_last();
        lemma_found_names(init);
        let rest = found_texts(init);
        assert forall|a: AssetText| #[trigger] found_texts(files).contains(a) implies a.const_path.len()
            >= 1 by {
            let w = choose|w: int| 0 <= w < found_texts(files).len() && found_texts(files)[w] == a;
            if w < rest.len() {
                assert(rest[w] == a);
                assert(rest.contains(a));
            }
        }
    }
}

/// Describe every PNG found, sorted by output path.
pub fn discover(files: &[FoundFile]) -> (r: Vec<Baked>)
    ensures
        r@.map_values(|b: Baked| b.text()) == sort_assets(found_texts(files@)),
        forall|i: int| 0 <= i < r.len() ==> (#[trigger] r@[i]).const_path.len() >= 1,
{
    let mut assets: Vec<AssetFile> = collect_assets(files);
    let ghost sorted = asset_texts(assets@);
    proof {
        lemma_sorted_names(files@);
    }
    let mut out: Vec<Baked> = Vec::new();
    let n: usize = assets.len();
    while assets.len() > 0
        invariant
            assets.len() + out.len() == n,
            sorted.len() == n,
            asset_texts(assets@) == sorted.skip(out.len() as int),
            out@.map_values(|b: Baked| b.text()) == sorted.take(out.len() as int),
            forall|i: int| 0 <= i < n ==> (#[trigger] sorted[i]).const_path.len() >= 1,
            forall|i: int| 0 <= i < out.len() ==> (#[trigger] out@[i]).const_path.len() >= 1,
        decreases assets.len(),
    {
        let ghost k = out.len() as int;
        let ghost before = out@;
        let ghost held = assets@;
        assert(asset_texts(held)[0] == held[0].text());
        assert(asset_texts(held)[0] == sorted[k]);
        let a: AssetFile = assets.remove(0);
        assert forall|i: int| 0 <= i < assets.len() implies asset_texts(assets@)[i] == sorted.skip(
            k + 1,
        )[i] by {
            assert(assets@[i] == held[i + 1]);
            assert(asset_texts(held)[i + 1] == sorted.skip(k)[i + 1]);
        }
        assert(asset_texts(assets@) =~= sorted.skip(k + 1));
        let b = Baked {
            input: a.input,
            rel: a.rel,
            const_path: a.const_path,
            nitrofs_path: a.nitrofs_path,
        };
        assert(b.text() == sorted[k]);
        assert(texts(b.const_path@).len() >= 1);
        out.push(b);
        assert(out@.map_values(|b: Baked| b.text()) =~= before.map_values(
            |b: Baked| b.text(),
        ).push(sorted[k]));
        assert(sorted.take(k + 1) =~= sorted.take(k).push(sorted[k]));
    }
    assert(sorted.take(n as int) =~= sorted);
    out
}

/// What [`discover`] lists; no image is read, so the constants can be generated
/// even where nothing can be baked.
pub fn predict_dir(files: &[FoundFile]) -> (r: Vec<Baked>)
    ensures
        r@.map_values(|b: Baked| b.text()) == sort_assets(found_texts(files@)),
        forall|i: int| 0 <= i < r.len() ==> (#[trigger] r@[i]).const_path.len() >= 1,
{
    discover(files)
}

/// The comment in front of the generated constants.
pub const BANNER: &'static str =
    "// @generated by png2sprite from assets/sprites/**/*.png.\n// Each constant is a NUL-terminated NitroFS path you can pass\n// to `bevy_nds_nitrofs::read_file` or stash in a `Sprite.image`.\n";

/// Generate the source that declares one constant per baked sprite, with
/// subdirectories as nested modules.
pub fn emit_rust_consts(items: &[Baked]) -> (s: String)
    requires
        forall|i: int| 0 <= i < items.len() ==> (#[trigger] items@[i]).const_path.len() >= 1,
    ensures
        s@ == const_module(BANNER@, items@.map_values(|b: Baked| b.entry())),
{
    let mut entries: Vec<ConstEntry> = Vec::new();
    let mut i: usize = 0;
    while i < items.len()
        invariant
            i <= items.len(),
            entry_texts(entries@) == items@.take(i as int).map_values(|b: Baked| b.entry()),
        decreases items.len() - i,
    {
        let ghost before = entries@;
        let e = ConstEntry {
            path: copy_texts(&items[i].const_path),
            target: items[i].nitrofs_path.clone(),
        };
        let ghost t = e.text();
        entries.push(e);
        assert(entry_texts(entries@) =~= entry_texts(before).push(t));
        assert(items@.take(i + 1).map_values(|b: Baked| b.entry()) =~= items@.take(
            i as int,
        ).map_values(|b: Baked| b.entry()).push(items@[i as int].entry()));
        i = i + 1;
    }
    assert(items@.take(items.len() as int) =~= items@);
    emit_const_module(BANNER, &entries)
}

/// The warning for converted tiles of an unexpected size, if they have one.
pub open spec fn gfx_warning(path: Seq<char>, gfx_len: nat, opts: Options) -> Option<Seq<char>> {
    let expected = (opts.width as nat * opts.height as nat) / 2;
    if gfx_len == expected {
        None
    } else {
        Some(
            "png2sprite: warning: "@ + path + " gfx is "@ + decimal(gfx_len) + " bytes, expected "@
                + decimal(expected) + " for "@ + decimal(opts.width as nat) + "x"@ + decimal(
                opts.height as nat,
            ) + " 4bpp"@,
        )
    }
}

/// Warn where the converted tiles do not fill the sprite exactly at four bits per pixel.
fn warn_gfx(path: &str, gfx_len: usize, opts: &Options) -> (r: Option<String>)
    ensures
        r is Some <==> gfx_warning(path@, gfx_len as nat, *opts) is Some,
        r matches Some(w) ==> Some(w@) == gfx_warning(path@, gfx_len as nat, *opts),
{
    assert(opts.width * opts.height <= 0xffff * 0xffff) by (nonlinear_arith)
        requires
            opts.width <= 0xffff,
            opts.height <= 0xffff,
    ;
    assert(0 <= opts.width * opts.height) by (nonlinear_arith);
    let expected: usize = (opts.width as usize) * (opts.height as usize) / 2;
    if gfx_len == expected {
        return None;
    }
    let mut w: String = String::new();
    push_text(&mut w, "png2sprite: warning: ");
    push_text(&mut w, path);
    push_text(&mut w, " gfx is ");
    push_text(&mut w, to_decimal(gfx_len as u64).as_str());
    push_text(&mut w, " bytes, expected ");
    push_text(&mut w, to_decimal(expected as u64).as_str());
    push_text(&mut w, " for ");
    push_text(&mut w, to_decimal(opts.width as u64).as_str());
    push_text(&mut w, "x");
    push_text(&mut w, to_decimal(opts.height as u64).as_str());
    push_text(&mut w, " 4bpp");
    assert(w@ =~= "png2sprite: warning: "@ + path@ + " gfx is "@ + decimal(gfx_len as nat)
        + " bytes, expected "@ + decimal(expected as nat) + " for "@ + decimal(opts.width as nat)
        + "x"@ + decimal(opts.height as nat) + " 4bpp"@);
    Some(w)
}

/// Make a sprite of the image converter's outputs, with a warning where the
/// tiles do not have the size that `opts` asks for.
pub fn bake(path: &str, gfx: Vec<u8>, pal_bytes: &[u8], opts: &Options) -> (r: Result<
    (Sprite, Option<String>),
    String,
>)
    ensures
        r is Ok <==> pal_bytes.len() % 2 == 0,
        r matches Ok((sprite, warning)) ==> {
            &&& sprite.width == opts.width
            &&& sprite.height == opts.height
            &&& sprite.palette@ == u16s_at(pal_bytes@, 0, (pal_bytes@.len() / 2) as nat)
            &&& sprite.gfx@ == gfx@
            &&& warning is Some <==> gfx_warning(path@, gfx@.len(), *opts) is Some
            &&& warning matches Some(w) ==> Some(w@) == gfx_warning(path@, gfx@.len(), *opts)
        },
        r matches Err(e) ==> e@ == "palette length "@ + decimal(pal_bytes@.len())
            + " not a multiple of 2 (u16)"@,
{
    match read_palette(pal_bytes) {
        Ok(palette) => {
            let warning: Option<String> = warn_gfx(path, gfx.len(), opts);
            Ok((Sprite { width: opts.width, height: opts.height, palette, gfx }, warning))
        },
        Err(e) => Err(e),
    }
}

} // verus!
