//! Which files of a directory are baked, and in what order.

use crate::bake::const_tree::{lemma_insert_sorted, texts};
use crate::bake::files::{
    asset_text, extension_of, law_sort_is_an_ordered_permutation, sort_assets, stem_of,
    with_extension, AssetText, FoundFile,
};
use crate::bake::levels::sorted_names;
use crate::bake::names::strictly_sorted;
use crate::bake::obj2dl::{join_path, plan_dir, Built};
use crate::bake::png2bg;
use crate::bake::png2sprite;
use crate::bake::wav2bank::collect_wavs;
use vstd::prelude::*;

verus! {

proof fn lemma_sorted_names(v: Seq<Seq<char>>)
    ensures
        strictly_sorted(sorted_names(v)),
        forall|x: Seq<char>| #[trigger] sorted_names(v).contains(x) <==> v.contains(x),
    decreases v.len(),
{
    if v.len() > 0 {
        let init = v.drop_last();
        lemma_sorted_names(init);
        lemma_insert_sorted(sorted_names(init), v.last());
        assert forall|x: Seq<char>| #[trigger] sorted_names(v).contains(x) <==> v.contains(x) by {
            lemma_contains_last(v, x);
            assert(sorted_names(init).contains(x) <==> init.contains(x));
        }
    }
}

proof fn lemma_contains_last<A>(v: Seq<A>, x: A)
    requires
        v.len() > 0,
    ensures
        v.contains(x) <==> v.drop_last().contains(x) || v.last() == x,
{
    if v.contains(x) {
        let i = choose|i: int| 0 <= i < v.len() && v[i] == x;
        if i < v.len() - 1 {
            assert(v.drop_last()[i] == x);
        }
    }
    if v.drop_last().contains(x) {
        let i = choose|i: int| 0 <= i < v.drop_last().len() && v.drop_last()[i] == x;
        assert(v[i] == x);
    }
    if v.last() == x {
        assert(v[v.len() - 1] == x);
    }
}

proof fn lemma_kept(v: Seq<Seq<char>>, ext: Seq<char>)
    requires
        strictly_sorted(v),
    ensures
        strictly_sorted(with_extension(v, ext)),
        forall|x: Seq<char>| #[trigger]
            with_extension(v, ext).contains(x) <==> v.contains(x) && extension_of(x) == Some(ext),
    decreases v.len(),
{
    if v.len() > 0 {
        let init = v.drop_last();
        lemma_kept(init, ext);
        let kept = with_extension(init, ext);
        let all = with_extension(v, ext);
        if extension_of(v.last()) == Some(ext) {
            assert forall|i: int, j: int| 0 <= i < j < all.len() implies crate::bake::names::lex_less(
                all[i],
                all[j],
            ) by {
                if j == kept.len() {
                    assert(kept.contains(kept[i]));
                    let k = choose|k: int| 0 <= k < init.len() && init[k] == kept[i];
                    assert(crate::bake::names::lex_less(v[k], v[v.len() - 1]));
                }
            }
        }
        assert forall|x: Seq<char>| #[trigger] all.contains(x) <==> v.contains(x) && extension_of(x)
            == Some(ext) by {
            lemma_contains_last(v, x);
            assert(kept.contains(x) <==> init.contains(x) && extension_of(x) == Some(ext));
            if extension_of(v.last()) == Some(ext) {
                lemma_contains_last(all, x);
                assert(all.drop_last() =~= kept);
            }
        }
    }
}

/// The sounds of a directory are its files with the extension of sounds, each once, in
/// the order of their names.
pub proof fn law_sounds_are_collected_in_order(files: &Vec<String>, r: Vec<String>, x: Seq<char>)
    requires
        call_ensures(collect_wavs, (files,), r),
    ensures
        strictly_sorted(texts(r@)),
        texts(r@).contains(x) <==> texts(files@).contains(x) && extension_of(x) == Some("wav"@),
{
    lemma_sorted_names(texts(files@));
    lemma_kept(sorted_names(texts(files@)), "wav"@);
    assert(texts(r@) == with_extension(sorted_names(texts(files@)), "wav"@));
    assert(sorted_names(texts(files@)).contains(x) <==> texts(files@).contains(x));
}

/// Every model of a directory is planned, from its own file to the file of its stem.
pub proof fn law_models_are_planned(
    src_dir: &str,
    dst_dir: &str,
    files: &Vec<String>,
    r: Vec<Built>,
    i: int,
    name: &str,
    input: String,
    target: &str,
    output: String,
)
    requires
        call_ensures(plan_dir, (src_dir, dst_dir, files), r),
        0 <= i < files@.len(),
        name@ == files@[i]@,
        extension_of(name@) == Some("obj"@),
        call_ensures(join_path, (src_dir, name), input),
        target@ == stem_of(name@) + "."@ + "dl"@,
        call_ensures(join_path, (dst_dir, target), output),
    ensures
        exists|k: int|
            0 <= k < r@.len() && (#[trigger] r@[k]).input@ == input@ && r@[k].output@ == output@,
{
    let all = texts(files@);
    let sorted = sorted_names(all);
    lemma_sorted_names(all);
    lemma_kept(sorted, "obj"@);
    let models = with_extension(sorted, "obj"@);
    assert(all[i] == name@);
    assert(all.contains(name@));
    assert(sorted.contains(name@));
    assert(models.contains(name@));
    let k = choose|k: int| 0 <= k < models.len() && models[k] == name@;
    assert(r@[k].input@ == input@);
}

proof fn lemma_sorted_has(v: Seq<AssetText>, x: AssetText)
    ensures
        sort_assets(v).contains(x) <==> v.contains(x),
{
    law_sort_is_an_ordered_permutation(v);
    v.to_multiset_ensures();
    sort_assets(v).to_multiset_ensures();
    assert(v.contains(x) <==> v.to_multiset().count(x) > 0);
    assert(sort_assets(v).contains(x) <==> sort_assets(v).to_multiset().count(x) > 0);
}

proof fn lemma_sprites_found(files: Seq<FoundFile>, x: AssetText)
    ensures
        png2sprite::found_texts(files).contains(x) <==> exists|i: int|
            0 <= i < files.len() && png2sprite::found_text(#[trigger] files[i]) == Some(x),
    decreases files.len(),
{
    if files.len() > 0 {
        let init = files.drop_last();
        lemma_sprites_found(init, x);
        let all = png2sprite::found_texts(files);
        if png2sprite::found_text(files.last()) is Some {
            lemma_contains_last(all, x);
            assert(all.drop_last() =~= png2sprite::found_texts(init));
        }
        if png2sprite::found_texts(init).contains(x) {
            let i = choose|i: int|
                0 <= i < init.len() && png2sprite::found_text(#[trigger] init[i]) == Some(x);
            assert(png2sprite::found_text(files[i]) == Some(x));
        }
        if exists|i: int|
            0 <= i < files.len() && png2sprite::found_text(#[trigger] files[i]) == Some(x) {
            let i = choose|i: int|
                0 <= i < files.len() && png2sprite::found_text(#[trigger] files[i]) == Some(x);
            if i < init.len() {
                assert(png2sprite::found_text(init[i]) == Some(x));
            } else {
                assert(files[i] == files.last());
            }
        }
        if png2sprite::found_text(files.last()) == Some(x) {
            assert(png2sprite::found_text(files[files.len() - 1]) == Some(x));
        }
    }
}

/// A picture becomes a sprite exactly where its file is a PNG: every such file is listed
/// with its own source, below its directories and under its stem, and nothing else is.
pub proof fn law_sprites_are_the_pictures(
    files: &[FoundFile],
    r: Vec<png2sprite::Baked>,
    i: int,
    k: int,
)
    requires
        call_ensures(png2sprite::discover, (files,), r),
    ensures
        0 <= i < files@.len() && extension_of(files@[i].file_name@) == Some("png"@) ==> exists|j: int|
            0 <= j < r@.len() && (#[trigger] r@[j]).text() == asset_text(
                files@[i].input@,
                "sprites"@,
                texts(files@[i].dirs@),
                stem_of(files@[i].file_name@),
                "sprite"@,
            ),
        0 <= k < r@.len() ==> exists|j: int|
            0 <= j < files@.len() && extension_of((#[trigger] files@[j]).file_name@) == Some("png"@)
                && files@[j].input@ == r@[k].input@,
{
    let found = png2sprite::found_texts(files@);
    let out = r@.map_values(|b: png2sprite::Baked| b.text());
    assert(out == sort_assets(found));
    if 0 <= i < files@.len() && extension_of(files@[i].file_name@) == Some("png"@) {
        let x = asset_text(
            files@[i].input@,
            "sprites"@,
            texts(files@[i].dirs@),
            stem_of(files@[i].file_name@),
            "sprite"@,
        );
        assert(png2sprite::found_text(files@[i]) == Some(x));
        lemma_sprites_found(files@, x);
        lemma_sorted_has(found, x);
        let j = choose|j: int| 0 <= j < out.len() && out[j] == x;
        assert(r@[j].text() == x);
    }
    if 0 <= k < r@.len() {
        let x = r@[k].text();
        assert(out[k] == x);
        assert(out.contains(x));
        lemma_sorted_has(found, x);
        lemma_sprites_found(files@, x);
        let j = choose|j: int|
            0 <= j < files@.len() && png2sprite::found_text(#[trigger] files@[j]) == Some(x);
        assert(files@[j].input@ == r@[k].input@);
    }
}

proof fn lemma_backgrounds_found(files: Seq<FoundFile>, x: AssetText)
    ensures
        png2bg::found_texts(files).contains(x) <==> exists|i: int|
            0 <= i < files.len() && png2bg::found_text(#[trigger] files[i]) == Some(x),
    decreases files.len(),
{
    if files.len() > 0 {
        let init = files.drop_last();
        lemma_backgrounds_found(init, x);
        let all = png2bg::found_texts(files);
        if png2bg::found_text(files.last()) is Some {
            lemma_contains_last(all, x);
            assert(all.drop_last() =~= png2bg::found_texts(init));
        }
        if png2bg::found_texts(init).contains(x) {
            let i = choose|i: int|
                0 <= i < init.len() && png2bg::found_text(#[trigger] init[i]) == Some(x);
            assert(png2bg::found_text(files[i]) == Some(x));
        }
        if exists|i: int|
            0 <= i < files.len() && png2bg::found_text(#[trigger] files[i]) == Some(x) {
            let i = choose|i: int|
                0 <= i < files.len() && png2bg::found_text(#[trigger] files[i]) == Some(x);
            if i < init.len() {
                assert(png2bg::found_text(init[i]) == Some(x));
            } else {
                assert(files[i] == files.last());
            }
        }
        if png2bg::found_text(files.last()) == Some(x) {
            assert(png2bg::found_text(files[files.len() - 1]) == Some(x));
        }
    }
}

/// A picture becomes a background exactly where its file is a PNG below the directory of
/// a kind, tiles or a bitmap; it is baked to that kind, below its directories and under
/// its stem. Nothing else is listed.
pub proof fn law_backgrounds_are_the_pictures(
    files: &[FoundFile],
    r: Vec<png2bg::Baked>,
    i: int,
    k: int,
)
    requires
        call_ensures(png2bg::discover, (files,), r),
    ensures
        0 <= i < files@.len() && files@[i].dirs@.len() > 0 && files@[i].dirs@[0]@ == "tiled"@
            && extension_of(files@[i].file_name@) == Some("png"@) ==> exists|j: int|
            0 <= j < r@.len() && (#[trigger] r@[j]).text() == asset_text(
                files@[i].input@,
                "backgrounds"@,
                texts(files@[i].dirs@),
                stem_of(files@[i].file_name@),
                "bg"@,
            ),
        0 <= i < files@.len() && files@[i].dirs@.len() > 0 && files@[i].dirs@[0]@ == "bitmap"@
            && extension_of(files@[i].file_name@) == Some("png"@) ==> exists|j: int|
            0 <= j < r@.len() && (#[trigger] r@[j]).text() == asset_text(
                files@[i].input@,
                "backgrounds"@,
                texts(files@[i].dirs@),
                stem_of(files@[i].file_name@),
                "bbg"@,
            ),
        0 <= k < r@.len() ==> exists|j: int|
            0 <= j < files@.len() && extension_of((#[trigger] files@[j]).file_name@) == Some("png"@)
                && files@[j].input@ == r@[k].input@ && files@[j].dirs@.len() > 0 && (
            files@[j].dirs@[0]@ == "tiled"@ || files@[j].dirs@[0]@ == "bitmap"@),
{
    let found = png2bg::found_texts(files@);
    let out = r@.map_values(|b: png2bg::Baked| b.text());
    assert(out == sort_assets(found));
    reveal_strlit("tiled");
    reveal_strlit("bitmap");
    assert("tiled"@.len() == 5 && "bitmap"@.len() == 6);
    if 0 <= i < files@.len() && files@[i].dirs@.len() > 0 && extension_of(files@[i].file_name@)
        == Some("png"@) {
        assert(texts(files@[i].dirs@)[0] == files@[i].dirs@[0]@);
        let x = asset_text(
            files@[i].input@,
            "backgrounds"@,
            texts(files@[i].dirs@),
            stem_of(files@[i].file_name@),
            if files@[i].dirs@[0]@ == "tiled"@ {
                "bg"@
            } else {
                "bbg"@
            },
        );
        if files@[i].dirs@[0]@ == "tiled"@ || files@[i].dirs@[0]@ == "bitmap"@ {
            assert(png2bg::found_text(files@[i]) == Some(x));
            lemma_backgrounds_found(files@, x);
            lemma_sorted_has(found, x);
            let j = choose|j: int| 0 <= j < out.len() && out[j] == x;
            assert(r@[j].text() == x);
        }
    }
    if 0 <= k < r@.len() {
        let x = r@[k].text();
        assert(out[k] == x);
        assert(out.contains(x));
        lemma_sorted_has(found, x);
        lemma_backgrounds_found(files@, x);
        let j = choose|j: int|
            0 <= j < files@.len() && png2bg::found_text(#[trigger] files@[j]) == Some(x);
        assert(files@[j].input@ == r@[k].input@);
        assert(texts(files@[j].dirs@).len() == files@[j].dirs@.len());
        if files@[j].dirs@.len() > 0 {
            assert(texts(files@[j].dirs@)[0] == files@[j].dirs@[0]@);
        }
    }
}

} // verus!
