//! What reading a model means: each line adds what it writes, and a face becomes the
//! triangles that fill it.

use crate::bake::obj::{
    corner_of, corner_view, corners_of, face_vertex_of, fan, obj_of, parse_face_vertex, parsed,
    read_line, read_lines, resolve, resolved_index, tri_view, tri_views, vec3_of, vec_views, Corner,
    CornerView, Numbers, ObjModel, ObjView,
};
use crate::bake::text_laws::{
    is_word, lacks, lemma_decimal_value, lemma_int_of_decimal, lemma_split_push, lemma_split_whole,
    lemma_tokens_spaced, spaced,
};
use crate::bake::text_scan::{split_at, tokens_of};
use crate::strings::{decimal, is_digit, is_white_space};
use vstd::prelude::*;

verus! {

/// A face token that names position `v` and normal `n`, both counted from one: `v`,
/// `v/t`, `v//n` or `v/t/n`.
pub open spec fn names_corner(tok: Seq<char>, v: nat, n: Option<nat>) -> bool {
    match n {
        None => tok == decimal(v) || exists|t: Seq<char>|
            lacks(t, '/') && tok == #[trigger] (decimal(v) + seq!['/'] + t),
        Some(n) => exists|t: Seq<char>|
            lacks(t, '/') && tok == #[trigger] (decimal(v) + seq!['/'] + t) + seq!['/'] + decimal(n),
    }
}

proof fn lemma_digits_lack(n: nat, c: char)
    requires
        !is_digit(c),
    ensures
        lacks(decimal(n), c),
{
    lemma_decimal_value(n);
    assert forall|i: int| 0 <= i < decimal(n).len() implies #[trigger] decimal(n)[i] != c by {
        assert(is_digit(decimal(n)[i]));
    }
}

/// A face token is read as the indices it writes.
pub proof fn law_face_token_names_its_corner(
    tok: &[char],
    v: nat,
    n: Option<nat>,
    r: Option<(i32, Option<i32>)>,
)
    requires
        names_corner(tok@, v, n),
        v <= 0x7fff_ffff,
        n matches Some(n) ==> n <= 0x7fff_ffff,
        call_ensures(parse_face_vertex, (tok,), r),
    ensures
        r matches Some((a, b)) && a == v && match n {
            Some(n) => b matches Some(b) && b == n,
            None => b is None,
        },
{
    lemma_names_corner(tok@, v, n);
}

proof fn lemma_names_corner(tok: Seq<char>, v: nat, n: Option<nat>)
    requires
        names_corner(tok, v, n),
        v <= 0x7fff_ffff,
        n matches Some(n) ==> n <= 0x7fff_ffff,
    ensures
        face_vertex_of(tok) == Some(
            (
                v as i32,
                match n {
                    Some(n) => Some(n as i32),
                    None => None,
                },
            ),
        ),
{
    lemma_digits_lack(v, '/');
    lemma_split_whole(decimal(v), '/');
    lemma_int_of_decimal(v);
    match n {
        None => {
            if tok != decimal(v) {
                let t = choose|t: Seq<char>|
                    lacks(t, '/') && tok == #[trigger] (decimal(v) + seq!['/'] + t);
                lemma_split_push(decimal(v), t, '/');
            }
        },
        Some(n) => {
            let t = choose|t: Seq<char>|
                lacks(t, '/') && tok == #[trigger] (decimal(v) + seq!['/'] + t) + seq!['/']
                    + decimal(n);
            lemma_digits_lack(n, '/');
            lemma_int_of_decimal(n);
            lemma_decimal_value(n);
            lemma_split_push(decimal(v), t, '/');
            lemma_split_push(decimal(v) + seq!['/'] + t, decimal(n), '/');
        },
    }
}

/// A positive index counts from the first item, a negative one from behind the last;
/// nothing else names an item.
pub proof fn law_index_counts_from_either_end(len: usize, idx: i32, r: Option<usize>)
    requires
        call_ensures(resolve, (len, idx), r),
    ensures
        r matches Some(i) ==> i < len && (idx > 0 && i + 1 == idx || idx < 0 && i == len + idx),
        0 < idx <= len ==> r is Some,
        -len <= idx < 0 ==> r is Some,
{
    assert(r is Some <==> resolved_index(len as nat, idx) is Some);
}

/// The corner that token `k` of a face names: position `at[k].0` and normal
/// `at[k].1`, counted from zero.
pub open spec fn face_names(toks: Seq<Seq<char>>, at: Seq<(nat, Option<nat>)>) -> bool {
    &&& toks.len() == at.len()
    &&& forall|k: int|
        0 <= k < toks.len() ==> names_corner(
            #[trigger] toks[k],
            at[k].0 + 1,
            match at[k].1 {
                Some(n) => Some(n + 1),
                None => None,
            },
        )
}

/// A corner with this position and normal of the model.
pub open spec fn corner_is(m: ObjModel, c: Corner, at: (nat, Option<nat>)) -> bool {
    &&& c.pos@ == m.positions@[at.0 as int]@
    &&& match at.1 {
        Some(n) => c.normal matches Some(v) && v@ == m.normals@[n as int]@,
        None => c.normal is None,
    }
}

/// One more line behind a source.
pub open spec fn with_line(source: Seq<char>, line: Seq<char>) -> Seq<char> {
    source + seq!['\n'] + line
}

/// A source with one more line gives the model of the source, with that line read.
proof fn lemma_appended_line(source: Seq<char>, line: Seq<char>, value: Numbers)
    requires
        lacks(line, '\n'),
        obj_of(source, value) is Ok,
    ensures
        obj_of(with_line(source, line), value) == read_line(
            obj_of(source, value)->Ok_0,
            split_at(source, '\n').len() + 1,
            tokens_of(line),
            value,
        ),
{
    let lines = split_at(source, '\n');
    lemma_split_push(source, line, '\n');
    let more = split_at(with_line(source, line), '\n');
    assert(more == lines.push(line));
    lemma_same_lines(lines, more, lines.len(), value);
    assert(more[more.len() - 1] == line);
}

proof fn lemma_same_lines(a: Seq<Seq<char>>, b: Seq<Seq<char>>, n: nat, value: Numbers)
    requires
        n <= a.len(),
        n <= b.len(),
        forall|i: int| 0 <= i < n ==> a[i] == b[i],
    ensures
        read_lines(a, n, value) == read_lines(b, n, value),
    decreases n,
{
    if n > 0 {
        lemma_same_lines(a, b, (n - 1) as nat, value);
    }
}

proof fn lemma_corners(
    m: ObjView,
    line: nat,
    toks: Seq<Seq<char>>,
    at: Seq<(nat, Option<nat>)>,
    n: nat,
)
    requires
        face_names(toks, at),
        n <= toks.len(),
        m.positions.len() <= 0x7fff_ffff,
        m.normals.len() <= 0x7fff_ffff,
        forall|k: int|
            0 <= k < at.len() ==> (#[trigger] at[k]).0 < m.positions.len() && (at[k].1 matches Some(
                j,
            ) ==> j < m.normals.len()),
    ensures
        corners_of(m, line, toks, n) == Ok::<Seq<CornerView>, Seq<char>>(
            Seq::new(
                n,
                |k: int|
                    (
                        m.positions[at[k].0 as int],
                        match at[k].1 {
                            Some(j) => Some(m.normals[j as int]),
                            None => None,
                        },
                    ),
            ),
        ),
    decreases n,
{
    let want = |k: int|
        (
            m.positions[at[k].0 as int],
            match at[k].1 {
                Some(j) => Some(m.normals[j as int]),
                None => None,
            },
        );
    if n == 0 {
        assert(Seq::new(0, want) =~= Seq::<CornerView>::empty());
    } else {
        let k = n - 1;
        lemma_corners(m, line, toks, at, k as nat);
        assert(at[k].0 < m.positions.len());
        lemma_names_corner(
            toks[k],
            at[k].0 + 1,
            match at[k].1 {
                Some(j) => Some(j + 1),
                None => None,
            },
        );
        assert(corner_of(m, line, toks[k]) == Ok::<CornerView, Seq<char>>(want(k)));
        assert(Seq::new(n, want) =~= Seq::new(k as nat, want).push(want(k)));
    }
}

/// A face line behind a source adds the triangles that fill the face, and nothing
/// else: a face of `n` corners gives `n - 2` triangles, of the first corner and two
/// that follow each other, in order. So every corner of the face stands in one of
/// them, and a face of three corners is that one triangle.
pub proof fn law_face_becomes_its_triangles(
    source: &str,
    more: &str,
    toks: Seq<Seq<char>>,
    at: Seq<(nat, Option<nat>)>,
    value: Numbers,
    m: ObjModel,
    r: Result<ObjModel, String>,
)
    requires
        parsed(source@, value, Ok::<ObjModel, String>(m)),
        m.positions@.len() <= 0x7fff_ffff,
        m.normals@.len() <= 0x7fff_ffff,
        forall|k: int| 0 <= k < toks.len() ==> is_word(#[trigger] toks[k]),
        face_names(toks, at),
        forall|k: int|
            0 <= k < at.len() ==> (#[trigger] at[k]).0 < m.positions@.len() && (
            at[k].1 matches Some(j) ==> j < m.normals@.len()),
        at.len() >= 3,
        more@ == with_line(source@, spaced(seq!["f"@] + toks)),
        parsed(more@, value, r),
    ensures
        r matches Ok(x) && {
            let old_len = m.tris@.len();
            &&& vec_views(x.positions@) == vec_views(m.positions@)
            &&& vec_views(x.normals@) == vec_views(m.normals@)
            &&& x.tris@.len() == old_len + at.len() - 2
            &&& forall|i: int| 0 <= i < old_len ==> tri_view(#[trigger] x.tris@[i]) == tri_view(m.tris@[i])
            &&& forall|i: int|
                0 <= i < at.len() - 2 ==> {
                    &&& corner_is(m, (#[trigger] x.tris@[old_len + i]).verts@[0], at[0])
                    &&& corner_is(m, x.tris@[old_len + i].verts@[1], at[i + 1])
                    &&& corner_is(m, x.tris@[old_len + i].verts@[2], at[i + 2])
                }
        },
{
    let words = seq!["f"@] + toks;
    lemma_face_words(toks);
    let start = m@;
    assert(start.positions.len() == m.positions@.len());
    assert(start.normals.len() == m.normals@.len());
    lemma_appended_line(source@, spaced(words), value);
    lemma_face_line(start, split_at(source@, '\n').len() + 1, toks, at, value);
    match r {
        Ok(x) => {
            lemma_new_triangles(m, x, at);
        },
        Err(e) => {},
    }
}

/// A face line starts with its key and holds its tokens.
proof fn lemma_face_words(toks: Seq<Seq<char>>)
    requires
        forall|k: int| 0 <= k < toks.len() ==> is_word(#[trigger] toks[k]),
    ensures
        tokens_of(spaced(seq!["f"@] + toks)) == seq!["f"@] + toks,
        lacks(spaced(seq!["f"@] + toks), '\n'),
{
    reveal_strlit("f");
    let words = seq!["f"@] + toks;
    assert forall|i: int| 0 <= i < words.len() implies is_word(#[trigger] words[i]) by {
        if i > 0 {
            assert(words[i] == toks[i - 1]);
        } else {
            assert(!is_white_space('f'));
        }
    }
    lemma_tokens_spaced(words);
    lemma_words_lack_newline(words);
}

/// The corner of a model at these indices, by its values.
spec fn corner_at(m: ObjView, at: (nat, Option<nat>)) -> CornerView {
    (
        m.positions[at.0 as int],
        match at.1 {
            Some(j) => Some(m.normals[j as int]),
            None => None,
        },
    )
}

/// The triangles of a face, by the indices of its corners.
spec fn face_tris(m: ObjView, at: Seq<(nat, Option<nat>)>) -> Seq<Seq<CornerView>> {
    Seq::new(
        (at.len() - 2) as nat,
        |i: int| seq![corner_at(m, at[0]), corner_at(m, at[i + 1]), corner_at(m, at[i + 2])],
    )
}

proof fn lemma_face_line(
    m: ObjView,
    line: nat,
    toks: Seq<Seq<char>>,
    at: Seq<(nat, Option<nat>)>,
    value: Numbers,
)
    requires
        face_names(toks, at),
        at.len() >= 3,
        m.positions.len() <= 0x7fff_ffff,
        m.normals.len() <= 0x7fff_ffff,
        forall|k: int|
            0 <= k < at.len() ==> (#[trigger] at[k]).0 < m.positions.len() && (at[k].1 matches Some(
                j,
            ) ==> j < m.normals.len()),
    ensures
        read_line(m, line, seq!["f"@] + toks, value) == Ok::<ObjView, Seq<char>>(
            ObjView { tris: m.tris + face_tris(m, at), ..m },
        ),
{
    reveal_strlit("f");
    reveal_strlit("v");
    reveal_strlit("vn");
    let words = seq!["f"@] + toks;
    assert(words.skip(1) =~= toks);
    lemma_corners(m, line, toks, at, toks.len());
    let c = corners_of(m, line, toks, toks.len())->Ok_0;
    assert(words[0] == "f"@);
    assert("f"@ != "v"@ && "f"@ != "vn"@) by {
        assert("f"@[0] == 'f' && "v"@[0] == 'v' && "vn"@[0] == 'v');
    }
    let n = (at.len() - 2) as nat;
    assert forall|i: int| 0 <= i < n implies fan(c, n)[i] == face_tris(m, at)[i] by {
        assert(c[0] == corner_at(m, at[0]));
        assert(c[i + 1] == corner_at(m, at[i + 1]));
        assert(c[i + 2] == corner_at(m, at[i + 2]));
    }
    assert(fan(c, n) =~= face_tris(m, at));
}

/// Triangles of the corners of a face, in the model itself.
proof fn lemma_new_triangles(m: ObjModel, x: ObjModel, at: Seq<(nat, Option<nat>)>)
    requires
        at.len() >= 3,
        x@ == (ObjView { tris: m@.tris + face_tris(m@, at), ..m@ }),
        forall|k: int|
            0 <= k < at.len() ==> (#[trigger] at[k]).0 < m.positions@.len() && (
            at[k].1 matches Some(j) ==> j < m.normals@.len()),
    ensures
        x.tris@.len() == m.tris@.len() + at.len() - 2,
        forall|i: int|
            0 <= i < m.tris@.len() ==> tri_view(#[trigger] x.tris@[i]) == tri_view(m.tris@[i]),
        forall|i: int|
            0 <= i < at.len() - 2 ==> {
                &&& corner_is(m, (#[trigger] x.tris@[m.tris@.len() + i]).verts@[0], at[0])
                &&& corner_is(m, x.tris@[m.tris@.len() + i].verts@[1], at[i + 1])
                &&& corner_is(m, x.tris@[m.tris@.len() + i].verts@[2], at[i + 2])
            },
{
    let old_len = m.tris@.len() as int;
    assert(tri_views(x.tris@).len() == x.tris@.len());
    assert(tri_views(m.tris@).len() == old_len);
    assert forall|i: int| 0 <= i < old_len implies tri_view(#[trigger] x.tris@[i]) == tri_view(
        m.tris@[i],
    ) by {
        assert(tri_views(x.tris@)[i] == tri_views(m.tris@)[i]);
    }
    assert forall|i: int| 0 <= i < at.len() - 2 implies {
        &&& corner_is(m, (#[trigger] x.tris@[m.tris@.len() + i]).verts@[0], at[0])
        &&& corner_is(m, x.tris@[m.tris@.len() + i].verts@[1], at[i + 1])
        &&& corner_is(m, x.tris@[m.tris@.len() + i].verts@[2], at[i + 2])
    } by {
        let t = x.tris@[old_len + i];
        assert(tri_views(x.tris@)[old_len + i] == tri_view(t));
        let want = face_tris(m@, at)[i];
        assert(tri_view(t) == want);
        assert(tri_view(t)[0] == want[0] && tri_view(t)[1] == want[1] && tri_view(t)[2] == want[2]);
        lemma_corner_is(m, t.verts@[0], at[0]);
        assert(at[i + 1].0 < m.positions@.len());
        assert(at[i + 2].0 < m.positions@.len());
        lemma_corner_is(m, t.verts@[1], at[i + 1]);
        lemma_corner_is(m, t.verts@[2], at[i + 2]);
    }
}

proof fn lemma_corner_is(m: ObjModel, c: Corner, at: (nat, Option<nat>))
    requires
        corner_view(c) == corner_at(m@, at),
        at.0 < m.positions@.len(),
        at.1 matches Some(j) ==> j < m.normals@.len(),
    ensures
        corner_is(m, c, at),
{
}

/// Spaced words hold no line break.
proof fn lemma_words_lack_newline(words: Seq<Seq<char>>)
    requires
        forall|i: int| 0 <= i < words.len() ==> is_word(#[trigger] words[i]),
    ensures
        lacks(spaced(words), '\n'),
    decreases words.len(),
{
    if words.len() > 0 {
        let init = words.drop_last();
        assert forall|i: int| 0 <= i < init.len() implies is_word(#[trigger] init[i]) by {
            assert(init[i] == words[i]);
        }
        lemma_words_lack_newline(init);
        let last = words[words.len() - 1];
        assert(is_word(last));
        let all = spaced(words);
        assert forall|i: int| 0 <= i < all.len() implies #[trigger] all[i] != '\n' by {
            if words.len() == 1 {
                assert(!is_white_space(last[i]));
            } else {
                let n = spaced(init).len() as int;
                if i < n {
                    assert(spaced(init)[i] != '\n');
                } else if i > n {
                    assert(!is_white_space(last[i - n - 1]));
                }
            }
        }
    }
}

/// A vertex line adds its position, and a normal line its normal, behind the others
/// and as the numbers are read; nothing else changes.
pub proof fn law_vertex_line_adds_its_numbers(
    source: &str,
    more: &str,
    normal: bool,
    xyz: Seq<Seq<char>>,
    value: Numbers,
    m: ObjModel,
    r: Result<ObjModel, String>,
)
    requires
        parsed(source@, value, Ok::<ObjModel, String>(m)),
        xyz.len() == 3,
        forall|k: int| 0 <= k < 3 ==> is_word(#[trigger] xyz[k]) && value(xyz[k]) is Some,
        more@ == with_line(
            source@,
            spaced(
                seq![if normal {
                    "vn"@
                } else {
                    "v"@
                }] + xyz,
            ),
        ),
        parsed(more@, value, r),
    ensures
        r matches Ok(x) && {
            let given = seq![value(xyz[0])->0, value(xyz[1])->0, value(xyz[2])->0];
            &&& vec_views(x.positions@) == if normal {
                vec_views(m.positions@)
            } else {
                vec_views(m.positions@).push(given)
            }
            &&& vec_views(x.normals@) == if normal {
                vec_views(m.normals@).push(given)
            } else {
                vec_views(m.normals@)
            }
            &&& tri_views(x.tris@) == tri_views(m.tris@)
        },
{
    reveal_strlit("v");
    reveal_strlit("vn");
    let key = if normal {
        "vn"@
    } else {
        "v"@
    };
    let words = seq![key] + xyz;
    let line = spaced(words);
    assert forall|i: int| 0 <= i < words.len() implies is_word(#[trigger] words[i]) by {
        if i > 0 {
            assert(words[i] == xyz[i - 1]);
        } else {
            assert(!is_white_space('v') && !is_white_space('n'));
        }
    }
    lemma_tokens_spaced(words);
    lemma_words_lack_newline(words);
    assert(obj_of(source@, value) == Ok::<ObjView, Seq<char>>(m@));
    lemma_appended_line(source@, line, value);
    assert(words[0] == key && words[1] == xyz[0] && words[2] == xyz[1] && words[3] == xyz[2]);
    assert("v"@ != "vn"@) by {
        assert("v"@.len() == 1 && "vn"@.len() == 2);
    }
    assert(is_word(xyz[0]) && is_word(xyz[1]) && is_word(xyz[2]));
    assert(vec3_of(words, value) == Some(
        seq![value(xyz[0])->0, value(xyz[1])->0, value(xyz[2])->0],
    ));
    match r {
        Ok(x) => {
            assert(obj_of(more@, value) == Ok::<ObjView, Seq<char>>(x@));
        },
        Err(e) => {
            assert(obj_of(more@, value) == Err::<ObjView, Seq<char>>(e@));
        },
    }
}

/// An empty source is a model without anything, and a line of another kind adds
/// nothing.
pub proof fn law_other_lines_add_nothing(
    source: &str,
    more: &str,
    words: Seq<Seq<char>>,
    value: Numbers,
    m: ObjModel,
    r: Result<ObjModel, String>,
)
    requires
        parsed(source@, value, Ok::<ObjModel, String>(m)),
        forall|k: int| 0 <= k < words.len() ==> is_word(#[trigger] words[k]),
        words.len() > 0 ==> words[0] != "v"@ && words[0] != "vn"@ && words[0] != "f"@,
        more@ == with_line(source@, spaced(words)),
        parsed(more@, value, r),
    ensures
        r matches Ok(x) && x@ == m@,
        source@.len() == 0 ==> m.positions@.len() == 0 && m.normals@.len() == 0 && m.tris@.len()
            == 0,
{
    lemma_tokens_spaced(words);
    lemma_words_lack_newline(words);
    assert(obj_of(source@, value) == Ok::<ObjView, Seq<char>>(m@));
    lemma_appended_line(source@, spaced(words), value);
    match r {
        Ok(x) => {
            assert(obj_of(more@, value) == Ok::<ObjView, Seq<char>>(x@));
        },
        Err(e) => {
            assert(obj_of(more@, value) == Err::<ObjView, Seq<char>>(e@));
        },
    }
    if source@.len() == 0 {
        let none = split_at(source@, '\n');
        assert(none[0].len() == 0);
        assert(tokens_of(none[0]).len() == 0);
        assert(read_lines(none, 0, value) is Ok);
        assert(m@.positions.len() == 0 && m@.normals.len() == 0 && m@.tris.len() == 0) by {
            reveal_with_fuel(read_lines, 2);
        }
        assert(vec_views(m.positions@).len() == m.positions@.len());
        assert(vec_views(m.normals@).len() == m.normals@.len());
        assert(tri_views(m.tris@).len() == m.tris@.len());
    }
}

} // verus!
