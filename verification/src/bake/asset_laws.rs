//! What baked sounds and images hold, and where baked files and their constants stand.

use crate::bake::const_tree::{
    const_line, const_lines, const_source, deepest, emit_const_module, entries_in, entry_texts,
    law_modules_sorted_and_complete, module_names, modules_source, pad, texts, ConstEntry,
    EntryText,
};
use crate::bake::files::{
    asset_file, joined, last_dot, lemma_last_dot, path_less, split_file_name, AssetFile,
};
use crate::bake::level_laws::has_line;
use crate::bake::names::{comes_before, const_name, lex_less, module_name};
use crate::bake::png2bg::{check_tile_size, png_dimensions};
use crate::bake::png2sprite::{bake, Options, Sprite};
use crate::bake::wav::{
    chunk_at, chunks, data_id, fmt_id, last_chunk, next_chunk, parse, riff_id, smpl_bytes,
    smpl_chunk, smpl_words, wave_id, Chunk, WavInfo,
};
use crate::bytes::{lemma_u32s_at, u32_at, u32_be_at, u32_le, u32s_at, u32s_le};
use vstd::prelude::*;

verus! {

/// Two bytes as a number, the low one first.
pub open spec fn le16(s: Seq<u8>, p: int) -> int {
    s[p] + 0x100 * s[p + 1]
}

/// Four bytes as a number, the lowest first.
pub open spec fn le32(s: Seq<u8>, p: int) -> int {
    s[p] + 0x100 * s[p + 1] + 0x1_0000 * s[p + 2] + 0x100_0000 * s[p + 3]
}

/// Four bytes as a number, the highest first.
pub open spec fn be32(s: Seq<u8>, p: int) -> int {
    0x100_0000 * s[p] + 0x1_0000 * s[p + 1] + 0x100 * s[p + 2] + s[p + 3]
}

/// These four bytes stand at `p`.
pub open spec fn spells(s: Seq<u8>, p: int, a: u8, b: u8, c: u8, d: u8) -> bool {
    s[p] == a && s[p + 1] == b && s[p + 2] == c && s[p + 3] == d
}

/// A plain sound file: the header, a format of sixteen bytes, then the samples.
pub open spec fn is_plain_wav(s: Seq<u8>) -> bool {
    &&& s.len() >= 44
    &&& spells(s, 0, 0x52, 0x49, 0x46, 0x46)
    &&& spells(s, 8, 0x57, 0x41, 0x56, 0x45)
    &&& spells(s, 12, 0x66, 0x6d, 0x74, 0x20)
    &&& le32(s, 16) == 16
    &&& spells(s, 36, 0x64, 0x61, 0x74, 0x61)
    &&& 44 + le32(s, 40) == s.len()
}

/// Of a plain sound file are read, from its format, the channels, the rate and the bits
/// of a sample, and the length of its samples in bytes.
pub proof fn law_plain_wav_is_read(bytes: &[u8], r: Result<WavInfo, String>)
    requires
        is_plain_wav(bytes@),
        call_ensures(parse, (bytes,), r),
    ensures
        r matches Ok(info) && info.channels == le16(bytes@, 22) && info.sample_rate == le32(
            bytes@,
            24,
        ) && info.bits_per_sample == le16(bytes@, 34) && info.data_len == le32(bytes@, 40),
{
    let s = bytes@;
    assert(s.subrange(0, 4) =~= riff_id());
    assert(s.subrange(8, 12) =~= wave_id());
    assert(s.subrange(12, 16) =~= fmt_id());
    assert(s.subrange(36, 40) =~= data_id());
    assert(u32_at(s, 16) == 16 && u32_at(s, 40) == le32(s, 40));
    let f = chunk_at(s, 12);
    let d = chunk_at(s, 36);
    assert(next_chunk(s, 12) == 36);
    assert(next_chunk(s, 36) >= s.len());
    assert(chunks(s, next_chunk(s, 36)) =~= Seq::<Chunk>::empty());
    assert(chunks(s, 36) =~= seq![d]);
    let all = chunks(s, 12);
    assert(all =~= seq![f, d]);
    assert(f.id != data_id()) by {
        assert(f.id[0] != data_id()[0]);
    }
    assert(d.id != fmt_id()) by {
        assert(d.id[0] != fmt_id()[0]);
    }
    assert(all.last() == d);
    assert(all.drop_last() =~= seq![f]);
    assert(all.drop_last().last() == f);
    assert(last_chunk(all, data_id()) == Some(d));
    assert(last_chunk(all, fmt_id()) == last_chunk(seq![f], fmt_id()));
    assert(seq![f].last() == f);
    assert(last_chunk(seq![f], fmt_id()) == Some(f));
}

/// A frame is a sample of every channel: as many are counted as there are whole ones.
pub proof fn law_frames_are_whole(info: &WavInfo, r: u32)
    requires
        call_ensures(WavInfo::frames, (info,), r),
    ensures
        ({
            let size = info.channels * info.bits_per_sample / 8;
            &&& size > 0 ==> r * size <= info.data_len < (r + 1) * size
            &&& size == 0 ==> r == 0
        }),
{
    let size = info.channels * info.bits_per_sample / 8;
    let n = info.data_len as int;
    assert(0 <= info.channels * info.bits_per_sample) by (nonlinear_arith);
    if size > 0 {
        let q = n / size;
        assert(q * size <= n < (q + 1) * size) by (nonlinear_arith)
            requires
                size > 0,
                q == n / size,
        ;
    }
}

/// The chunk that loops a sound: its name, its length, the length of a sample in
/// nanoseconds, the note that it is heard at, and one loop, forward and without end,
/// from the first frame to the last.
pub proof fn law_loop_covers_the_sound(info: &WavInfo, r: Vec<u8>, frames: u32)
    requires
        call_ensures(smpl_chunk, (info,), r),
        call_ensures(WavInfo::frames, (info,), frames),
    ensures
        r@.len() == 68,
        spells(r@, 0, 0x73, 0x6d, 0x70, 0x6c),
        le32(r@, 4) == 60,
        info.sample_rate > 0 ==> le32(r@, 16) * info.sample_rate <= 1_000_000_000 < (le32(r@, 16)
            + 1) * info.sample_rate,
        info.sample_rate == 0 ==> le32(r@, 16) == 0,
        le32(r@, 20) == 60,
        le32(r@, 36) == 1,
        le32(r@, 48) == 0,
        le32(r@, 52) == 0,
        frames > 0 ==> le32(r@, 56) == frames - 1,
        frames == 0 ==> le32(r@, 56) == 0,
        le32(r@, 64) == 0,
{
    let w = smpl_words(*info);
    let body = u32s_le(w);
    let s = r@;
    assert(s == smpl_bytes(*info));
    let head = crate::bake::wav::smpl_id() + u32_le(60);
    assert(head.len() == 8);
    crate::bytes::lemma_u32s_le(w);
    assert(s.skip(8) =~= body);
    lemma_word(s, w, 2);
    lemma_word(s, w, 3);
    lemma_word(s, w, 7);
    lemma_word(s, w, 10);
    lemma_word(s, w, 11);
    lemma_word(s, w, 12);
    lemma_word(s, w, 14);
    assert(s[0] == head[0] && s[1] == head[1] && s[2] == head[2] && s[3] == head[3]);
    assert(s[4] == head[4] && s[5] == head[5] && s[6] == head[6] && s[7] == head[7]);
    assert(head.subrange(4, 8) =~= u32_le(60));
    assert(le32(s, 4) == 60) by {
        let b = u32_le(60);
        assert(s[4] == b[0] && s[5] == b[1] && s[6] == b[2] && s[7] == b[3]);
    }
    let rate = info.sample_rate as int;
    if rate > 0 {
        let q = 1_000_000_000int / rate;
        assert(q * rate <= 1_000_000_000 < (q + 1) * rate) by (nonlinear_arith)
            requires
                rate > 0,
                q == 1_000_000_000int / rate,
        ;
    }
}

proof fn lemma_word(s: Seq<u8>, w: Seq<u32>, k: int)
    requires
        s.len() == 8 + 4 * w.len(),
        s.skip(8) == u32s_le(w),
        0 <= k < w.len(),
    ensures
        le32(s, 8 + 4 * k) == w[k],
{
    let b = s.skip(8);
    assert(b.subrange(0, b.len() as int) =~= u32s_le(w));
    lemma_u32s_at(b, 0, w);
    assert(u32s_at(b, 0, w.len())[k] == u32_at(b, 4 * k));
    assert(b[4 * k] == s[8 + 4 * k]);
    assert(b[4 * k + 1] == s[8 + 4 * k + 1]);
    assert(b[4 * k + 2] == s[8 + 4 * k + 2]);
    assert(b[4 * k + 3] == s[8 + 4 * k + 3]);
}

/// A picture's size is read from its header chunk, width first, each the highest byte
/// first. It is refused where the file does not start as a PNG does, or where a side
/// does not fit a halfword.
pub proof fn law_png_size_is_read(path: &str, png: &[u8], r: Result<(u16, u16), String>)
    requires
        call_ensures(png_dimensions, (path, png), r),
    ensures
        ({
            let s = png@;
            let starts = s.len() >= 24 && spells(s, 0, 0x89, 0x50, 0x4e, 0x47) && spells(
                s,
                4,
                0x0d,
                0x0a,
                0x1a,
                0x0a,
            ) && spells(s, 12, 0x49, 0x48, 0x44, 0x52);
            &&& r is Ok <==> starts && be32(s, 16) < 0x1_0000 && be32(s, 20) < 0x1_0000
            &&& r matches Ok((w, h)) ==> w == be32(s, 16) && h == be32(s, 20)
            &&& r matches Err(e) ==> has_line(e@, path@)
        }),
{
    let s = png@;
    if s.len() >= 24 {
        let sig = seq![0x89u8, 0x50, 0x4e, 0x47, 0x0d, 0x0a, 0x1a, 0x0a];
        let ihdr = seq![0x49u8, 0x48, 0x44, 0x52];
        if spells(s, 0, 0x89, 0x50, 0x4e, 0x47) && spells(s, 4, 0x0d, 0x0a, 0x1a, 0x0a) {
            assert(s.take(8) =~= sig);
        } else {
            assert(s.take(8) != sig) by {
                if s.take(8) == sig {
                    assert(s[0] == sig[0] && s[1] == sig[1] && s[2] == sig[2] && s[3] == sig[3]);
                    assert(s[4] == sig[4] && s[5] == sig[5] && s[6] == sig[6] && s[7] == sig[7]);
                }
            }
        }
        if spells(s, 12, 0x49, 0x48, 0x44, 0x52) {
            assert(s.subrange(12, 16) =~= ihdr);
        } else {
            assert(s.subrange(12, 16) != ihdr) by {
                if s.subrange(12, 16) == ihdr {
                    let t = s.subrange(12, 16);
                    assert(s[12] == t[0] && s[13] == t[1] && s[14] == t[2] && s[15] == t[3]);
                }
            }
        }
        assert(u32_be_at(s, 16) == be32(s, 16));
        assert(u32_be_at(s, 20) == be32(s, 20));
    }
    if let Err(e) = r {
        let none = Seq::<char>::empty();
        let rest = e@.skip(path@.len() as int);
        assert(e@ =~= none + path@ + rest);
    }
}

/// A picture can be cut into tiles exactly where whole tiles fill it both ways.
pub proof fn law_tiles_fill_the_picture(
    path: &str,
    width: u16,
    height: u16,
    r: Result<(), String>,
    across: int,
    down: int,
)
    requires
        call_ensures(check_tile_size, (path, width, height), r),
    ensures
        width == 8 * across && height == 8 * down ==> r is Ok,
        8 * across < width < 8 * across + 8 || 8 * down < height < 8 * down + 8 ==> r is Err,
{
}

/// A sprite is warned of exactly where its tiles do not have a byte for every two
/// pixels of the size that was asked for; it is baked all the same, with that size.
pub proof fn law_odd_tiles_are_warned_of(
    path: &str,
    gfx: Vec<u8>,
    pal_bytes: &[u8],
    opts: &Options,
    r: Result<(Sprite, Option<String>), String>,
)
    requires
        call_ensures(bake, (path, gfx, pal_bytes, opts), r),
        pal_bytes@.len() % 2 == 0,
        opts.width * opts.height % 2 == 0,
    ensures
        r matches Ok((sprite, warning)) && (warning is None <==> 2 * gfx@.len() == opts.width
            * opts.height) && sprite.gfx@ == gfx@ && sprite.width == opts.width && sprite.height
            == opts.height,
{
    let p = opts.width as int * opts.height as int;
    assert(p >= 0) by (nonlinear_arith)
        requires
            p == opts.width as int * opts.height as int,
    ;
    assert(opts.width as nat * opts.height as nat == p);
}

/// The directories of a path, each followed by a slash, the outermost first.
pub open spec fn slashed(dirs: Seq<Seq<char>>) -> Seq<char>
    decreases dirs.len(),
{
    if dirs.len() == 0 {
        Seq::empty()
    } else {
        dirs[0] + seq!['/'] + slashed(dirs.skip(1))
    }
}

proof fn lemma_slashed_push(dirs: Seq<Seq<char>>, d: Seq<char>)
    ensures
        slashed(dirs.push(d)) == slashed(dirs) + d + seq!['/'],
    decreases dirs.len(),
{
    if dirs.len() == 0 {
        let one = dirs.push(d);
        assert(one.skip(1) =~= Seq::<Seq<char>>::empty());
        assert(slashed(one.skip(1)) =~= Seq::<char>::empty());
        assert(one[0] == d);
        assert(slashed(dirs.push(d)) =~= slashed(dirs) + d + seq!['/']);
    } else {
        assert(dirs.push(d).skip(1) =~= dirs.skip(1).push(d));
        lemma_slashed_push(dirs.skip(1), d);
        assert(slashed(dirs.push(d)) =~= slashed(dirs) + d + seq!['/']);
    }
}

proof fn lemma_joined(dirs: Seq<Seq<char>>)
    ensures
        joined(dirs) == slashed(dirs),
    decreases dirs.len(),
{
    if dirs.len() > 0 {
        lemma_joined(dirs.drop_last());
        lemma_slashed_push(dirs.drop_last(), dirs.last());
        assert(dirs.drop_last().push(dirs.last()) =~= dirs);
        reveal_strlit("/");
        assert("/"@ =~= seq!['/']);
    }
}

/// A baked file stands below its source's directories, outermost first, under its own
/// stem; its constant stands in a module for every directory.
pub proof fn law_baked_file_follows_its_source(
    input: &String,
    root: &str,
    dirs: &Vec<String>,
    stem: &String,
    ext: &str,
    r: AssetFile,
    i: int,
    component: &str,
    module: String,
    stem_text: &str,
    name: String,
)
    requires
        call_ensures(asset_file, (input, root, dirs, stem, ext), r),
        0 <= i < dirs@.len(),
        component@ == dirs@[i]@,
        call_ensures(module_name, (component,), module),
        stem_text@ == stem@,
        call_ensures(const_name, (stem_text,), name),
    ensures
        r.input@ == input@,
        r.nitrofs_path@ == "nitro:/"@ + root@ + "/"@ + slashed(texts(dirs@)) + stem@ + "."@ + ext@,
        r.rel@.len() == dirs@.len() + 1,
        r.rel@[i]@ == dirs@[i]@,
        r.rel@.last()@ == stem@ + "."@ + ext@,
        r.const_path@.len() == dirs@.len() + 1,
        r.const_path@[i]@ == module@,
        r.const_path@.last()@ == name@,
{
    let t = r.text();
    lemma_joined(texts(dirs@));
    assert(t.rel == texts(r.rel@));
    assert(t.const_path == texts(r.const_path@));
    assert(t.rel.len() == dirs@.len() + 1);
    assert(texts(dirs@)[i] == dirs@[i]@);
    assert(t.rel[i] == r.rel@[i]@);
    assert(t.rel.last() == r.rel@.last()@);
    assert(t.const_path.len() == dirs@.len() + 1);
    assert(t.const_path[i] == r.const_path@[i]@);
    assert(t.const_path.last() == r.const_path@.last()@);
}

/// Of two names the one with the smaller character in the first place where they differ
/// comes first, or the one that ends there.
pub proof fn law_names_go_by_their_first_difference(a: &str, b: &str, r: bool, k: int)
    requires
        call_ensures(comes_before, (a, b), r),
        0 <= k <= a@.len(),
        k <= b@.len(),
        forall|i: int| 0 <= i < k ==> #[trigger] a@[i] == b@[i],
    ensures
        k < a@.len() && k < b@.len() && a@[k] != b@[k] ==> r == (a@[k] < b@[k]),
        k == a@.len() ==> r == (k < b@.len()),
        k == b@.len() ==> !r,
{
    lemma_lex(a@, b@, k);
}

proof fn lemma_lex(a: Seq<char>, b: Seq<char>, k: int)
    requires
        0 <= k <= a.len(),
        k <= b.len(),
        forall|i: int| 0 <= i < k ==> #[trigger] a[i] == b[i],
    ensures
        k < a.len() && k < b.len() && a[k] != b[k] ==> lex_less(a, b) == (a[k] < b[k]),
        k == a.len() ==> lex_less(a, b) == (k < b.len()),
        k == b.len() ==> !lex_less(a, b),
    decreases k,
{
    if k > 0 {
        let (c, d) = (a.skip(1), b.skip(1));
        assert(a[0] == b[0]);
        assert forall|i: int| 0 <= i < k - 1 implies #[trigger] c[i] == d[i] by {
            assert(a[i + 1] == b[i + 1]);
        }
        lemma_lex(c, d, k - 1);
    }
}

/// Of two paths the one whose first differing directory comes first comes first, or the
/// one that ends there.
pub proof fn law_paths_go_by_their_first_difference(
    a: Seq<Seq<char>>,
    b: Seq<Seq<char>>,
    k: int,
)
    requires
        0 <= k <= a.len(),
        k <= b.len(),
        forall|i: int| 0 <= i < k ==> #[trigger] a[i] == b[i],
    ensures
        k < a.len() && k < b.len() && a[k] != b[k] ==> path_less(a, b) == lex_less(a[k], b[k]),
        k == a.len() ==> path_less(a, b) == (k < b.len()),
        k == b.len() ==> !path_less(a, b),
    decreases k,
{
    if k > 0 {
        let (c, d) = (a.skip(1), b.skip(1));
        assert(a[0] == b[0]);
        assert forall|i: int| 0 <= i < k - 1 implies #[trigger] c[i] == d[i] by {
            assert(a[i + 1] == b[i + 1]);
        }
        law_paths_go_by_their_first_difference(c, d, k - 1);
    }
}

/// A file name is its stem, a dot and its extension, and the extension holds no dot.
/// Without an extension the name is its own stem, and holds no dot but a leading one, or
/// is the parent's name.
pub proof fn law_file_name_is_stem_and_extension(name: &str, r: (String, Option<String>))
    requires
        call_ensures(split_file_name, (name,), r),
    ensures
        r.1 matches Some(e) ==> name@ == r.0@ + seq!['.'] + e@ && !e@.contains('.') && r.0@.len()
            > 0 && name@ != seq!['.', '.'],
        r.1 is None ==> r.0@ == name@ && (name@ == seq!['.', '.'] || forall|i: int|
            1 <= i < name@.len() ==> #[trigger] name@[i] != '.'),
{
    let s = name@;
    lemma_last_dot(s);
    let d = last_dot(s);
    if let Some(e) = r.1 {
        assert(e@ == s.skip(d + 1));
        assert(s =~= r.0@ + seq!['.'] + e@);
        if e@.contains('.') {
            let i = choose|i: int| 0 <= i < e@.len() && e@[i] == '.';
            assert(s[d + 1 + i] == '.');
        }
    }
}

/// The generated source has this constant in this nest of modules.
pub open spec fn declares(
    source: Seq<char>,
    depth: nat,
    path: Seq<Seq<char>>,
    target: Seq<char>,
) -> bool
    decreases path.len(),
{
    if path.len() == 0 {
        false
    } else if path.len() == 1 {
        has_line(source, const_line(depth, path[0], target))
    } else {
        exists|body: Seq<char>|
            has_line(source, #[trigger] module_text(depth, path[0], body)) && declares(
                body,
                depth + 1,
                path.skip(1),
                target,
            )
    }
}

/// A module of the generated source.
pub open spec fn module_text(depth: nat, name: Seq<char>, body: Seq<char>) -> Seq<char> {
    pad(depth) + "pub mod "@ + name + " {\n"@ + body + pad(depth) + "}\n"@
}

proof fn lemma_line_in_sum(a: Seq<char>, b: Seq<char>, part: Seq<char>)
    ensures
        has_line(a, part) ==> has_line(a + b, part),
        has_line(b, part) ==> has_line(a + b, part),
        has_line(part, part),
{
    if has_line(a, part) {
        let (pre, post) = choose|pre: Seq<char>, post: Seq<char>|
            a == #[trigger] (pre + part + post);
        assert(a + b =~= pre + part + (post + b));
    }
    if has_line(b, part) {
        let (pre, post) = choose|pre: Seq<char>, post: Seq<char>|
            b == #[trigger] (pre + part + post);
        assert(a + b =~= (a + pre) + part + post);
    }
    let none = Seq::<char>::empty();
    assert(part =~= none + part + none);
}

proof fn lemma_const_line(entries: Seq<EntryText>, depth: nat, i: int)
    requires
        0 <= i < entries.len(),
        entries[i].0.len() == 1,
    ensures
        has_line(const_lines(entries, depth), const_line(depth, entries[i].0[0], entries[i].1)),
    decreases entries.len(),
{
    let init = entries.drop_last();
    let part = const_line(depth, entries[i].0[0], entries[i].1);
    let e = entries.last();
    let own = if e.0.len() == 1 {
        const_line(depth, e.0[0], e.1)
    } else {
        Seq::empty()
    };
    if i < init.len() {
        lemma_const_line(init, depth, i);
    }
    lemma_line_in_sum(const_lines(init, depth), own, part);
    if i == init.len() {
        lemma_line_in_sum(part, part, part);
    }
}

proof fn lemma_entry_inside(entries: Seq<EntryText>, i: int) -> (j: int)
    requires
        0 <= i < entries.len(),
        entries[i].0.len() >= 2,
    ensures
        0 <= j < entries_in(entries, entries[i].0[0]).len(),
        entries_in(entries, entries[i].0[0])[j] == (entries[i].0.skip(1), entries[i].1),
    decreases entries.len(),
{
    let name = entries[i].0[0];
    let init = entries.drop_last();
    if i < init.len() {
        lemma_entry_inside(init, i)
    } else {
        entries_in(init, name).len() as int
    }
}

proof fn lemma_module(entries: Seq<EntryText>, names: Seq<Seq<char>>, depth: nat, levels: nat, k: int)
    requires
        levels > 0,
        0 <= k < names.len(),
    ensures
        has_line(
            modules_source(entries, names, depth, levels),
            module_text(
                depth,
                names[k],
                const_source(entries_in(entries, names[k]), depth + 1, (levels - 1) as nat),
            ),
        ),
    decreases names.len(),
{
    let init = names.drop_last();
    let last = module_text(
        depth,
        names.last(),
        const_source(entries_in(entries, names.last()), depth + 1, (levels - 1) as nat),
    );
    let rest = modules_source(entries, init, depth, levels);
    let part = module_text(
        depth,
        names[k],
        const_source(entries_in(entries, names[k]), depth + 1, (levels - 1) as nat),
    );
    assert(modules_source(entries, names, depth, levels) =~= rest + last);
    if k < init.len() {
        lemma_module(entries, init, depth, levels, k);
    }
    lemma_line_in_sum(rest, last, part);
    if k == init.len() {
        lemma_line_in_sum(last, last, part);
    }
}

proof fn lemma_declared(entries: Seq<EntryText>, depth: nat, levels: nat, i: int)
    requires
        0 <= i < entries.len(),
        1 <= entries[i].0.len() <= levels,
    ensures
        declares(const_source(entries, depth, levels), depth, entries[i].0, entries[i].1),
    decreases levels,
{
    let path = entries[i].0;
    let lines = const_lines(entries, depth);
    let names = module_names(entries);
    let modules = modules_source(entries, names, depth, levels);
    assert(const_source(entries, depth, levels) == lines + modules);
    if path.len() == 1 {
        lemma_const_line(entries, depth, i);
        lemma_line_in_sum(lines, modules, const_line(depth, path[0], entries[i].1));
    } else {
        law_modules_sorted_and_complete(entries);
        assert(names.contains(path[0]));
        let k = choose|k: int| 0 <= k < names.len() && names[k] == path[0];
        lemma_module(entries, names, depth, levels, k);
        let inside = entries_in(entries, path[0]);
        let j = lemma_entry_inside(entries, i);
        let body = const_source(inside, depth + 1, (levels - 1) as nat);
        lemma_declared(inside, depth + 1, (levels - 1) as nat, j);
        lemma_line_in_sum(lines, modules, module_text(depth, path[0], body));
        assert(has_line(
            const_source(entries, depth, levels),
            module_text(depth, path[0], body),
        ));
    }
}

proof fn lemma_deepest(entries: Seq<EntryText>, i: int)
    requires
        0 <= i < entries.len(),
    ensures
        entries[i].0.len() <= deepest(entries),
    decreases entries.len(),
{
    if i < entries.len() - 1 {
        lemma_deepest(entries.drop_last(), i);
    }
}

/// Every constant is declared: behind the banner it stands in the module that its path
/// names, inside the module before that, with the file that it is for.
pub proof fn law_every_constant_is_declared(
    banner: &str,
    entries: &Vec<ConstEntry>,
    s: String,
    i: int,
)
    requires
        call_ensures(emit_const_module, (banner, entries), s),
        0 <= i < entries@.len(),
        entries@[i].path@.len() >= 1,
    ensures
        s@.len() >= banner@.len(),
        s@.take(banner@.len() as int) == banner@,
        declares(
            s@.skip(banner@.len() as int),
            0,
            texts(entries@[i].path@),
            entries@[i].target@,
        ),
{
    let e = entry_texts(entries@);
    assert(e[i] == entries@[i].text());
    lemma_deepest(e, i);
    lemma_declared(e, 0, deepest(e), i);
    assert(s@.skip(banner@.len() as int) =~= const_source(e, 0, deepest(e)));
    assert(s@.take(banner@.len() as int) =~= banner@);
}

} // verus!
