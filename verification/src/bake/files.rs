//! Source files of an asset tree: which of them are baked, where the result
//! goes, and what the generated code calls it.

use crate::bake::const_tree::texts;
use crate::bake::names::{
    comes_before, const_name, guard_digit, lemma_lex_irreflexive, lemma_lex_total,
    lemma_lex_transitive, lex_less, lower_name, module_name, upper_name,
};
use crate::strings::{chars_of, push_text, string_of};
use vstd::prelude::*;

verus! {

/// A file found below the root of an asset tree.
pub struct FoundFile {
    /// Where the file is.
    pub input: String,
    /// The directories between the root and the file.
    pub dirs: Vec<String>,
    /// The name of the file itself.
    pub file_name: String,
}

/// A source file that is baked.
pub struct AssetFile {
    /// Where the source file is.
    pub input: String,
    /// Path components of the baked file below the output root.
    pub rel: Vec<String>,
    /// Modules and name of the generated constant.
    pub const_path: Vec<String>,
    /// Path that the constant resolves to.
    pub nitrofs_path: String,
}

/// A baked source file, by its texts.
#[verifier::ext_equal]
pub struct AssetText {
    pub input: Seq<char>,
    pub rel: Seq<Seq<char>>,
    pub const_path: Seq<Seq<char>>,
    pub nitrofs_path: Seq<char>,
}

impl AssetFile {
    pub open spec fn text(self) -> AssetText {
        AssetText {
            input: self.input@,
            rel: texts(self.rel@),
            const_path: texts(self.const_path@),
            nitrofs_path: self.nitrofs_path@,
        }
    }
}

/// Position of the last dot of a file name, or -1.
pub open spec fn last_dot(name: Seq<char>) -> int
    decreases name.len(),
{
    if name.len() == 0 {
        -1
    } else if name.last() == '.' {
        name.len() - 1
    } else {
        last_dot(name.drop_last())
    }
}

/// The extension of a file name, without its dot. A name whose only dot leads it
/// has none.
pub open spec fn extension_of(name: Seq<char>) -> Option<Seq<char>> {
    if name == seq!['.', '.'] || last_dot(name) <= 0 {
        None
    } else {
        Some(name.skip(last_dot(name) + 1))
    }
}

/// A file name without its extension.
pub open spec fn stem_of(name: Seq<char>) -> Seq<char> {
    if extension_of(name) is Some {
        name.take(last_dot(name))
    } else {
        name
    }
}

/// Where the last dot is.
pub proof fn lemma_last_dot(name: Seq<char>)
    ensures
        -1 <= last_dot(name) < name.len(),
        last_dot(name) >= 0 ==> name[last_dot(name)] == '.',
        forall|k: int| last_dot(name) < k < name.len() ==> name[k] != '.',
    decreases name.len(),
{
    if name.len() > 0 && name.last() != '.' {
        lemma_last_dot(name.drop_last());
        assert forall|k: int| last_dot(name) < k < name.len() implies name[k] != '.' by {
            if k < name.len() - 1 {
                assert(name.drop_last()[k] == name[k]);
            }
        }
    }
}

/// Only the last dot has no dot behind it.
proof fn lemma_last_dot_unique(name: Seq<char>, d: int)
    requires
        -1 <= d < name.len(),
        d >= 0 ==> name[d] == '.',
        forall|k: int| d < k < name.len() ==> name[k] != '.',
    ensures
        last_dot(name) == d,
{
    lemma_last_dot(name);
}

/// Split a file name into its stem and its extension.
pub fn split_file_name(name: &str) -> (r: (String, Option<String>))
    ensures
        r.0@ == stem_of(name@),
        r.1 is Some <==> extension_of(name@) is Some,
        r.1 matches Some(e) ==> e@ == extension_of(name@)->0,
{
    let v: Vec<char> = chars_of(name);
    let n: usize = v.len();
    let mut i: usize = n;
    while i > 0 && v[i - 1] != '.'
        invariant
            n == v.len(),
            i <= n,
            forall|k: int| i <= k < n ==> v@[k] != '.',
        decreases i,
    {
        i = i - 1;
    }
    proof {
        lemma_last_dot_unique(v@, i - 1);
    }
    let parent: bool = n == 2 && v[0] == '.' && v[1] == '.';
    assert(parent == (v@ =~= seq!['.', '.']));
    if parent || i <= 1 {
        return (string_of(v.as_slice()), None);
    }
    let mut stem: String = String::new();
    let mut k: usize = 0;
    while k < i - 1
        invariant
            n == v.len(),
            k <= i - 1,
            1 < i <= n,
            stem@ == v@.take(k as int),
        decreases i - k,
    {
        stem.push(v[k]);
        assert(v@.take(k + 1) =~= v@.take(k as int).push(v@[k as int]));
        k = k + 1;
    }
    let mut ext: String = String::new();
    let mut m: usize = i;
    while m < n
        invariant
            n == v.len(),
            1 < i <= m <= n,
            ext@ == v@.subrange(i as int, m as int),
        decreases n - m,
    {
        ext.push(v[m]);
        m = m + 1;
    }
    assert(v@.subrange(i as int, n as int) =~= v@.skip(i as int));
    (stem, Some(ext))
}

/// The path `nitro:/<root>/<dirs>/<stem>.<ext>`.
pub open spec fn nitro_path(
    root: Seq<char>,
    dirs: Seq<Seq<char>>,
    stem: Seq<char>,
    ext: Seq<char>,
) -> Seq<char> {
    "nitro:/"@ + root + "/"@ + joined(dirs) + stem + "."@ + ext
}

/// Directories, each followed by a slash.
pub open spec fn joined(dirs: Seq<Seq<char>>) -> Seq<char>
    decreases dirs.len(),
{
    if dirs.len() == 0 {
        Seq::empty()
    } else {
        joined(dirs.drop_last()) + dirs.last() + "/"@
    }
}

/// How a source file with these directories and this stem is baked to a file
/// with extension `ext` below `root`.
pub open spec fn asset_text(
    input: Seq<char>,
    root: Seq<char>,
    dirs: Seq<Seq<char>>,
    stem: Seq<char>,
    ext: Seq<char>,
) -> AssetText {
    AssetText {
        input,
        rel: dirs.push(stem + "."@ + ext),
        const_path: dirs.map_values(|d: Seq<char>| guard_digit(lower_name(d))).push(
            upper_name(stem),
        ),
        nitrofs_path: nitro_path(root, dirs, stem, ext),
    }
}

/// Name everything about one baked source file.
pub fn asset_file(input: &String, root: &str, dirs: &Vec<String>, stem: &String, ext: &str) -> (r:
    AssetFile)
    ensures
        r.text() == asset_text(input@, root@, texts(dirs@), stem@, ext@),
{
    let mut rel: Vec<String> = Vec::new();
    let mut const_path: Vec<String> = Vec::new();
    let mut nitrofs: String = String::new();
    push_text(&mut nitrofs, "nitro:/");
    push_text(&mut nitrofs, root);
    push_text(&mut nitrofs, "/");
    let ghost prefix = nitrofs@;
    let ghost all = texts(dirs@);
    let mut i: usize = 0;
    assert(nitrofs@ =~= prefix + joined(all.take(0)));
    assert(texts(rel@) =~= all.take(0));
    assert(texts(const_path@) =~= all.take(0).map_values(
        |d: Seq<char>| guard_digit(lower_name(d)),
    ));
    while i < dirs.len()
        invariant
            i <= dirs.len(),
            all == texts(dirs@),
            texts(rel@) == all.take(i as int),
            texts(const_path@) == all.take(i as int).map_values(
                |d: Seq<char>| guard_digit(lower_name(d)),
            ),
            nitrofs@ == prefix + joined(all.take(i as int)),
        decreases dirs.len() - i,
    {
        let ghost rel0 = rel@;
        let ghost const0 = const_path@;
        let ghost next = all.take(i + 1);
        assert(next =~= all.take(i as int).push(dirs@[i as int]@));
        assert(next.drop_last() =~= all.take(i as int));
        rel.push(dirs[i].clone());
        assert(texts(rel@) =~= texts(rel0).push(dirs@[i as int]@));
        let module: String = module_name(dirs[i].as_str());
        const_path.push(module);
        assert(texts(const_path@) =~= texts(const0).push(guard_digit(lower_name(dirs@[i as int]@))));
        assert(texts(const_path@) =~= next.map_values(|d: Seq<char>| guard_digit(lower_name(d))));
        push_text(&mut nitrofs, dirs[i].as_str());
        push_text(&mut nitrofs, "/");
        assert(nitrofs@ =~= prefix + joined(next));
        i = i + 1;
    }
    assert(all.take(dirs.len() as int) =~= all);
    push_text(&mut nitrofs, stem.as_str());
    push_text(&mut nitrofs, ".");
    push_text(&mut nitrofs, ext);
    assert(nitrofs@ =~= nitro_path(root@, all, stem@, ext@));
    let mut leaf: String = stem.clone();
    push_text(&mut leaf, ".");
    push_text(&mut leaf, ext);
    let ghost rel0 = rel@;
    rel.push(leaf);
    assert(texts(rel@) =~= texts(rel0).push(stem@ + "."@ + ext@));
    let ghost const0 = const_path@;
    const_path.push(const_name(stem.as_str()));
    assert(texts(const_path@) =~= texts(const0).push(upper_name(stem@)));
    AssetFile { input: input.clone(), rel, const_path, nitrofs_path: nitrofs }
}

/// `a` comes before `b`, component by component.
pub open spec fn path_less(a: Seq<Seq<char>>, b: Seq<Seq<char>>) -> bool
    decreases a.len(),
{
    if b.len() == 0 {
        false
    } else if a.len() == 0 {
        true
    } else if a[0] != b[0] {
        lex_less(a[0], b[0])
    } else {
        path_less(a.skip(1), b.skip(1))
    }
}

/// A common start does not matter to the order of paths.
proof fn lemma_path_skip(a: Seq<Seq<char>>, b: Seq<Seq<char>>, i: int)
    requires
        0 <= i <= a.len(),
        i <= b.len(),
        forall|k: int| 0 <= k < i ==> a[k] == b[k],
    ensures
        path_less(a, b) == path_less(a.skip(i), b.skip(i)),
    decreases i,
{
    if i == 0 {
        assert(a.skip(0) =~= a && b.skip(0) =~= b);
    } else {
        lemma_path_skip(a, b, i - 1);
        let x = a.skip(i - 1);
        let y = b.skip(i - 1);
        assert(x[0] == a[i - 1] && y[0] == b[i - 1]);
        assert(x.skip(1) =~= a.skip(i));
        assert(y.skip(1) =~= b.skip(i));
    }
}

/// Does path `a` come before path `b`?
pub fn path_before(a: &Vec<String>, b: &Vec<String>) -> (r: bool)
    ensures
        r == path_less(texts(a@), texts(b@)),
{
    let ghost x = texts(a@);
    let ghost y = texts(b@);
    let mut i: usize = 0;
    while i < a.len() && i < b.len() && a[i] == b[i]
        invariant
            i <= a.len(),
            i <= b.len(),
            x == texts(a@),
            y == texts(b@),
            forall|k: int| 0 <= k < i ==> x[k] == y[k],
        decreases a.len() - i,
    {
        i = i + 1;
    }
    proof {
        lemma_path_skip(x, y, i as int);
    }
    if i >= b.len() {
        false
    } else if i >= a.len() {
        true
    } else {
        comes_before(a[i].as_str(), b[i].as_str())
    }
}

/// The order of paths is transitive.
proof fn lemma_path_transitive(a: Seq<Seq<char>>, b: Seq<Seq<char>>, c: Seq<Seq<char>>)
    requires
        path_less(a, b),
        path_less(b, c),
    ensures
        path_less(a, c),
    decreases a.len(),
{
    if a.len() > 0 && b.len() > 0 && c.len() > 0 {
        if a[0] == b[0] && b[0] == c[0] {
            lemma_path_transitive(a.skip(1), b.skip(1), c.skip(1));
        } else if a[0] != b[0] && b[0] != c[0] {
            lemma_lex_transitive(a[0], b[0], c[0]);
            if a[0] == c[0] {
                lemma_lex_irreflexive(a[0]);
            }
        }
    }
}

/// Of two different paths one comes first, and not both.
proof fn lemma_path_total(a: Seq<Seq<char>>, b: Seq<Seq<char>>)
    ensures
        a == b || path_less(a, b) || path_less(b, a),
        path_less(a, b) ==> !path_less(b, a),
    decreases a.len(),
{
    if a.len() == 0 || b.len() == 0 {
        if a.len() == b.len() {
            assert(a =~= b);
        }
    } else if a[0] == b[0] {
        lemma_path_total(a.skip(1), b.skip(1));
        if a.skip(1) == b.skip(1) {
            assert(a =~= seq![a[0]] + a.skip(1));
            assert(b =~= seq![b[0]] + b.skip(1));
        }
    } else {
        lemma_lex_total(a[0], b[0]);
        if lex_less(a[0], b[0]) && lex_less(b[0], a[0]) {
            lemma_lex_transitive(a[0], b[0], a[0]);
            lemma_lex_irreflexive(a[0]);
        }
    }
}

/// `assets` with `x` put behind everything that does not come after it.
pub open spec fn insert_asset(assets: Seq<AssetText>, x: AssetText) -> Seq<AssetText>
    decreases assets.len(),
{
    if assets.len() > 0 && path_less(x.rel, assets.last().rel) {
        insert_asset(assets.drop_last(), x).push(assets.last())
    } else {
        assets.push(x)
    }
}

/// `assets` sorted by output path; ties keep their order.
pub open spec fn sort_assets(assets: Seq<AssetText>) -> Seq<AssetText>
    decreases assets.len(),
{
    if assets.len() == 0 {
        Seq::empty()
    } else {
        insert_asset(sort_assets(assets.drop_last()), assets.last())
    }
}

/// The texts of a list of baked files.
pub open spec fn asset_texts(v: Seq<AssetFile>) -> Seq<AssetText> {
    v.map_values(|a: AssetFile| a.text())
}

/// Putting an asset in its place does not touch the larger ones behind it.
proof fn lemma_insert_asset_behind(assets: Seq<AssetText>, x: AssetText, i: int)
    requires
        0 <= i <= assets.len(),
        forall|j: int| i <= j < assets.len() ==> path_less(x.rel, (#[trigger] assets[j]).rel),
    ensures
        insert_asset(assets, x) == insert_asset(assets.take(i), x) + assets.skip(i),
    decreases assets.len(),
{
    if i == assets.len() {
        assert(assets.take(i) =~= assets);
        assert(insert_asset(assets, x) + assets.skip(i) =~= insert_asset(assets, x));
    } else {
        let init = assets.drop_last();
        assert(assets.last() == assets[assets.len() - 1]);
        lemma_insert_asset_behind(init, x, i);
        assert(init.take(i) =~= assets.take(i));
        assert(insert_asset(init, x).push(assets.last()) =~= insert_asset(assets.take(i), x)
            + assets.skip(i));
    }
}

/// Put a baked file in its place in a sorted list.
pub fn insert_asset_file(assets: &mut Vec<AssetFile>, x: AssetFile)
    ensures
        asset_texts(final(assets)@) == insert_asset(asset_texts(old(assets)@), x.text()),
{
    let ghost before = asset_texts(assets@);
    let mut i: usize = assets.len();
    while i > 0 && path_before(&x.rel, &assets[i - 1].rel)
        invariant
            i <= assets.len(),
            before == asset_texts(assets@),
            forall|j: int|
                i <= j < assets.len() ==> path_less(x.text().rel, (#[trigger] before[j]).rel),
        decreases i,
    {
        assert(before[i - 1].rel == texts(assets@[i - 1].rel@));
        i = i - 1;
    }
    let ghost xt = x.text();
    proof {
        lemma_insert_asset_behind(before, xt, i as int);
        let head = before.take(i as int);
        if i > 0 {
            assert(head.last() == before[i - 1]);
            assert(before[i - 1].rel == texts(assets@[i - 1].rel@));
        }
        assert(insert_asset(head, xt) == head.push(xt));
    }
    assets.insert(i, x);
    proof {
        assert(asset_texts(assets@) =~= before.take(i as int).push(xt) + before.skip(i as int));
    }
}

/// Assets in order of their output paths.
pub open spec fn assets_sorted(assets: Seq<AssetText>) -> bool {
    forall|i: int, j: int|
        0 <= i < j < assets.len() ==> !path_less((#[trigger] assets[j]).rel, (
        #[trigger] assets[i]).rel)
}

/// Putting an asset in its place keeps a sorted list sorted.
proof fn lemma_insert_asset_sorted(assets: Seq<AssetText>, x: AssetText)
    requires
        assets_sorted(assets),
    ensures
        assets_sorted(insert_asset(assets, x)),
        insert_asset(assets, x).to_multiset() == assets.to_multiset().insert(x),
    decreases assets.len(),
{
    broadcast use vstd::seq_lib::group_to_multiset_ensures;

    let r = insert_asset(assets, x);
    if assets.len() > 0 && path_less(x.rel, assets.last().rel) {
        let init = assets.drop_last();
        let last = assets.last();
        let sub = insert_asset(init, x);
        assert(assets =~= init.push(last));
        assert(assets_sorted(init)) by {
            assert forall|i: int, j: int| 0 <= i < j < init.len() implies !path_less(
                (#[trigger] init[j]).rel,
                (#[trigger] init[i]).rel,
            ) by {
                assert(init[i] == assets[i] && init[j] == assets[j]);
            }
        }
        lemma_insert_asset_sorted(init, x);
        assert(init.to_multiset().insert(x).insert(last) =~= init.to_multiset().insert(
            last,
        ).insert(x));
        assert forall|i: int, j: int| 0 <= i < j < r.len() implies !path_less(
            (#[trigger] r[j]).rel,
            (#[trigger] r[i]).rel,
        ) by {
            if j == r.len() - 1 {
                lemma_insert_members(init, x, i);
                if r[i] == x {
                    lemma_path_total(x.rel, last.rel);
                } else {
                    let w = choose|w: int| 0 <= w < init.len() && init[w] == r[i];
                    assert(assets[w] == r[i]);
                    assert(!path_less(assets[assets.len() - 1].rel, assets[w].rel));
                }
            } else {
                assert(sub[i] == r[i] && sub[j] == r[j]);
            }
        }
    } else {
        assert forall|i: int, j: int| 0 <= i < j < r.len() implies !path_less(
            (#[trigger] r[j]).rel,
            (#[trigger] r[i]).rel,
        ) by {
            if j == r.len() - 1 {
                if i < assets.len() - 1 {
                    assert(!path_less(assets[assets.len() - 1].rel, assets[i].rel));
                    if path_less(x.rel, assets[i].rel) {
                        lemma_path_total(assets[i].rel, assets.last().rel);
                        if assets[i].rel != assets.last().rel {
                            lemma_path_transitive(x.rel, assets[i].rel, assets.last().rel);
                        }
                    }
                }
            } else {
                assert(r[i] == assets[i] && r[j] == assets[j]);
            }
        }
    }
}

/// What stands in a list after an asset was put in its place.
proof fn lemma_insert_members(assets: Seq<AssetText>, x: AssetText, i: int)
    requires
        0 <= i < insert_asset(assets, x).len(),
    ensures
        insert_asset(assets, x)[i] == x || assets.contains(insert_asset(assets, x)[i]),
        insert_asset(assets, x).len() == assets.len() + 1,
    decreases assets.len(),
{
    let r = insert_asset(assets, x);
    if assets.len() > 0 && path_less(x.rel, assets.last().rel) {
        let init = assets.drop_last();
        if i < r.len() - 1 {
            lemma_insert_members(init, x, i);
            if r[i] != x {
                let w = choose|w: int| 0 <= w < init.len() && init[w] == r[i];
                assert(assets[w] == r[i]);
            }
        } else {
            lemma_insert_members(init, x, 0);
            assert(assets[assets.len() - 1] == r[i]);
        }
    } else if i < assets.len() {
        assert(assets[i] == r[i]);
    }
}

/// Sorting orders the assets by output path and neither adds nor drops any.
pub proof fn law_sort_is_an_ordered_permutation(assets: Seq<AssetText>)
    ensures
        assets_sorted(sort_assets(assets)),
        sort_assets(assets).to_multiset() == assets.to_multiset(),
    decreases assets.len(),
{
    broadcast use vstd::seq_lib::group_to_multiset_ensures;

    if assets.len() > 0 {
        let init = assets.drop_last();
        law_sort_is_an_ordered_permutation(init);
        lemma_insert_asset_sorted(sort_assets(init), assets.last());
        assert(assets =~= init.push(assets.last()));
    } else {
        assert(assets =~= Seq::empty());
    }
}

/// The file names with this extension, in order.
pub open spec fn with_extension(files: Seq<Seq<char>>, ext: Seq<char>) -> Seq<Seq<char>>
    decreases files.len(),
{
    if files.len() == 0 {
        Seq::empty()
    } else if extension_of(files.last()) == Some(ext) {
        with_extension(files.drop_last(), ext).push(files.last())
    } else {
        with_extension(files.drop_last(), ext)
    }
}

/// Keep the file names with this extension, in order.
pub fn keep_extension(files: &Vec<String>, ext: &str) -> (r: Vec<String>)
    ensures
        texts(r@) == with_extension(texts(files@), ext@),
{
    let ghost all = texts(files@);
    let mut out: Vec<String> = Vec::new();
    let mut i: usize = 0;
    assert(texts(out@) =~= with_extension(all.take(0), ext@));
    while i < files.len()
        invariant
            i <= files.len(),
            all == texts(files@),
            texts(out@) == with_extension(all.take(i as int), ext@),
        decreases files.len() - i,
    {
        proof {
            assert(all.take(i + 1).drop_last() =~= all.take(i as int));
            assert(all.take(i + 1).last() == files@[i as int]@);
        }
        let ghost before = out@;
        let (_stem, found) = split_file_name(files[i].as_str());
        let keep: bool = match found {
            Some(e) => crate::strings::same_text(e.as_str(), ext),
            None => false,
        };
        if keep {
            out.push(files[i].clone());
            assert(texts(out@) =~= texts(before).push(files@[i as int]@));
        }
        i = i + 1;
    }
    assert(all.take(files.len() as int) =~= all);
    out
}

} // verus!
