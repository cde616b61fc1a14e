//! Wavefront OBJ models: the reader of the supported subset.
//!
//! Only vertices, normals and faces are read. Faces are cut into triangles that
//! share their first corner; normals may be missing.

use crate::bake::text_scan::{int_of, parse_int, pieces, split, split_at, tokens, tokens_of};
use crate::float::{F32Bits, F32_ZERO};
use crate::strings::{chars_of, decimal, push_text, string_of, to_decimal};
use vstd::prelude::*;

verus! {

/// One corner of a face: where it is, and its normal if the file gives one.
#[derive(Clone, Copy, Debug)]
pub struct Corner {
    pub pos: [F32Bits; 3],
    pub normal: Option<[F32Bits; 3]>,
}

/// A triangle.
#[derive(Clone, Copy, Debug)]
pub struct Tri {
    pub verts: [Corner; 3],
}

/// A corner by its values.
pub type CornerView = (Seq<F32Bits>, Option<Seq<F32Bits>>);

/// A corner by its values.
pub open spec fn corner_view(c: Corner) -> CornerView {
    (
        c.pos@,
        match c.normal {
            Some(n) => Some(n@),
            None => None,
        },
    )
}

/// A triangle by its values.
pub open spec fn tri_view(t: Tri) -> Seq<CornerView> {
    seq![corner_view(t.verts@[0]), corner_view(t.verts@[1]), corner_view(t.verts@[2])]
}

/// Triangles by their values.
pub open spec fn tri_views(v: Seq<Tri>) -> Seq<Seq<CornerView>> {
    Seq::new(v.len(), |i: int| tri_view(v[i]))
}

/// Corners by their values.
pub open spec fn corner_views(v: Seq<Corner>) -> Seq<CornerView> {
    Seq::new(v.len(), |i: int| corner_view(v[i]))
}

/// Vectors by their values.
pub open spec fn vec_views(v: Seq<[F32Bits; 3]>) -> Seq<Seq<F32Bits>> {
    Seq::new(v.len(), |i: int| v[i]@)
}

/// The value that a text writes, if it writes a number.
pub type Numbers = spec_fn(Seq<char>) -> Option<F32Bits>;

/// `f` reads numbers as `value` says.
pub open spec fn reads<F: Fn(&str) -> Option<F32Bits>>(f: F, value: Numbers) -> bool {
    forall|s: &str, r: Option<F32Bits>| #[trigger] call_ensures(f, (s,), r) ==> r == value(s@)
}

/// The vector that the tokens from the second on write.
pub open spec fn vec3_of(t: Seq<Seq<char>>, value: Numbers) -> Option<Seq<F32Bits>> {
    if t.len() < 4 {
        None
    } else {
        match (value(t[1]), value(t[2]), value(t[3])) {
            (Some(x), Some(y), Some(z)) => Some(seq![x, y, z]),
            _ => None,
        }
    }
}

/// The vertex and normal index that a face token writes.
pub open spec fn face_vertex_of(tok: Seq<char>) -> Option<(i32, Option<i32>)> {
    let parts = split_at(tok, '/');
    match int_of(parts[0]) {
        None => None,
        Some(v) => if parts.len() >= 3 && parts[2].len() > 0 {
            match int_of(parts[2]) {
                None => None,
                Some(n) => Some((v, Some(n))),
            }
        } else {
            Some((v, None))
        },
    }
}

/// Position of a one-based index among `len` items; a negative one counts from the
/// end.
pub open spec fn resolved_index(len: nat, idx: i32) -> Option<int> {
    let i = if idx > 0 {
        idx - 1
    } else {
        len + idx
    };
    if idx != 0 && 0 <= i < len {
        Some(i)
    } else {
        None
    }
}

/// What has been read of a model.
#[verifier::ext_equal]
pub struct ObjView {
    pub positions: Seq<Seq<F32Bits>>,
    pub normals: Seq<Seq<F32Bits>>,
    pub tris: Seq<Seq<CornerView>>,
}

/// How a model is baked.
#[derive(Debug, Clone, Copy)]
pub struct Options {
    /// Put the origin at the middle of the bounding box.
    pub center: bool,
    /// Move every vertex by this much, after any centring.
    pub offset: [F32Bits; 3],
    /// Write short vertices.
    pub compress: bool,
}

impl Default for Options {
    fn default() -> (r: Options)
        ensures
            !r.center,
            r.offset@ == seq![F32Bits(F32_ZERO), F32Bits(F32_ZERO), F32Bits(F32_ZERO)],
            !r.compress,
    {
        let offset: [F32Bits; 3] = [F32Bits(F32_ZERO), F32Bits(F32_ZERO), F32Bits(F32_ZERO)];
        assert(offset@ =~= seq![F32Bits(F32_ZERO), F32Bits(F32_ZERO), F32Bits(F32_ZERO)]);
        Options { center: false, offset, compress: false }
    }
}

/// The start of an error text.
pub open spec fn at_line(line: nat, what: Seq<char>) -> Seq<char> {
    "line "@ + decimal(line) + ": "@ + what
}

/// What the debug form of a text looks like: in quotes, with special characters
/// escaped.
pub uninterp spec fn debug_text(t: Seq<char>) -> Seq<char>;

/// The `{:?}` form of a text, as `core::fmt` writes it: a function of the text
/// alone.
#[verifier::external_body]
pub(crate) fn to_debug(t: &str) -> (r: String)
    ensures
        r@ == debug_text(t@),
{
    format!("{:?}", t)
}

/// The corner that a face token names, or why it names none.
pub open spec fn corner_of(m: ObjView, line: nat, tok: Seq<char>) -> Result<CornerView, Seq<char>> {
    match face_vertex_of(tok) {
        None => Err(at_line(line, "malformed face vertex "@ + debug_text(tok))),
        Some((v, n)) => match resolved_index(m.positions.len(), v) {
            None => Err(at_line(line, "vertex index out of range"@)),
            Some(i) => match n {
                None => Ok((m.positions[i], None)),
                Some(n) => match resolved_index(m.normals.len(), n) {
                    None => Err(at_line(line, "normal index out of range"@)),
                    Some(j) => Ok((m.positions[i], Some(m.normals[j]))),
                },
            },
        },
    }
}

/// The corners of the first `n` tokens of a face, or the first error.
pub open spec fn corners_of(m: ObjView, line: nat, toks: Seq<Seq<char>>, n: nat) -> Result<
    Seq<CornerView>,
    Seq<char>,
>
    decreases n,
{
    if n == 0 {
        Ok(Seq::empty())
    } else {
        match corners_of(m, line, toks, (n - 1) as nat) {
            Err(e) => Err(e),
            Ok(v) => match corner_of(m, line, toks[n - 1]) {
                Err(e) => Err(e),
                Ok(c) => Ok(v.push(c)),
            },
        }
    }
}

/// The first `n` triangles of a fan over these corners.
pub open spec fn fan(c: Seq<CornerView>, n: nat) -> Seq<Seq<CornerView>> {
    Seq::new(n, |i: int| seq![c[0], c[i + 1], c[i + 2]])
}

/// The model after one more line.
pub open spec fn read_line(m: ObjView, line: nat, t: Seq<Seq<char>>, value: Numbers) -> Result<
    ObjView,
    Seq<char>,
> {
    if t.len() == 0 {
        Ok(m)
    } else if t[0] == "v"@ {
        match vec3_of(t, value) {
            None => Err(at_line(line, "malformed vertex"@)),
            Some(v) => Ok(ObjView { positions: m.positions.push(v), ..m }),
        }
    } else if t[0] == "vn"@ {
        match vec3_of(t, value) {
            None => Err(at_line(line, "malformed normal"@)),
            Some(v) => Ok(ObjView { normals: m.normals.push(v), ..m }),
        }
    } else if t[0] == "f"@ {
        match corners_of(m, line, t.skip(1), (t.len() - 1) as nat) {
            Err(e) => Err(e),
            Ok(c) => if c.len() < 3 {
                Err(at_line(line, "face has < 3 vertices"@))
            } else {
                Ok(ObjView { tris: m.tris + fan(c, (c.len() - 2) as nat), ..m })
            },
        }
    } else {
        Ok(m)
    }
}

/// The model after the first `n` lines, or the first error.
pub open spec fn read_lines(lines: Seq<Seq<char>>, n: nat, value: Numbers) -> Result<
    ObjView,
    Seq<char>,
>
    decreases n,
{
    if n == 0 {
        Ok(ObjView { positions: Seq::empty(), normals: Seq::empty(), tris: Seq::empty() })
    } else {
        match read_lines(lines, (n - 1) as nat, value) {
            Err(e) => Err(e),
            Ok(m) => read_line(m, n, tokens_of(lines[n - 1]), value),
        }
    }
}

/// The model that a source writes, or its first error.
pub open spec fn obj_of(source: Seq<char>, value: Numbers) -> Result<ObjView, Seq<char>> {
    let lines = split_at(source, '\n');
    read_lines(lines, lines.len(), value)
}

proof fn lemma_lines_err(lines: Seq<Seq<char>>, k: nat, n: nat, value: Numbers)
    requires
        k <= n,
        read_lines(lines, k, value) is Err,
    ensures
        read_lines(lines, n, value) == read_lines(lines, k, value),
    decreases n,
{
    if k < n {
        lemma_lines_err(lines, k, (n - 1) as nat, value);
    }
}

proof fn lemma_corners_err(m: ObjView, line: nat, toks: Seq<Seq<char>>, k: nat, n: nat)
    requires
        k <= n,
        corners_of(m, line, toks, k) is Err,
    ensures
        corners_of(m, line, toks, n) == corners_of(m, line, toks, k),
    decreases n,
{
    if k < n {
        lemma_corners_err(m, line, toks, k, (n - 1) as nat);
    }
}

/// An error at a line.
pub fn line_error(line: usize, what: &str) -> (r: String)
    ensures
        r@ == at_line(line as nat, what@),
{
    let mut e: String = String::new();
    push_text(&mut e, "line ");
    push_text(&mut e, to_decimal(line as u64).as_str());
    push_text(&mut e, ": ");
    push_text(&mut e, what);
    assert(e@ =~= at_line(line as nat, what@));
    e
}

/// The error for a face token that is no index; `shown` is its debug form.
pub fn malformed_face(line: usize, shown: &str) -> (r: String)
    ensures
        r@ == at_line(line as nat, "malformed face vertex "@ + shown@),
{
    let mut t: String = String::new();
    push_text(&mut t, "malformed face vertex ");
    push_text(&mut t, shown);
    assert(t@ =~= "malformed face vertex "@ + shown@);
    line_error(line, t.as_str())
}

/// Is the piece the text `t`?
fn piece_is(p: &Vec<char>, t: &str) -> (r: bool)
    ensures
        r == (p@ == t@),
{
    let s: String = string_of(p.as_slice());
    crate::strings::same_text(s.as_str(), t)
}

/// Resolve a one-based index, negative from the end, into a list of `len` items.
pub fn resolve(len: usize, idx: i32) -> (r: Option<usize>)
    ensures
        r matches Some(i) ==> resolved_index(len as nat, idx) == Some(i as int),
        r is None ==> resolved_index(len as nat, idx) is None,
{
    if idx > 0 {
        let i: usize = (idx - 1) as usize;
        if i < len {
            Some(i)
        } else {
            None
        }
    } else if idx < 0 {
        let back: u32 = (0 - idx as i64) as u32;
        if back as u64 <= len as u64 {
            Some(len - back as usize)
        } else {
            None
        }
    } else {
        None
    }
}

/// Read one face token: `v`, `v/t`, `v//n` or `v/t/n`.
pub fn parse_face_vertex(tok: &[char]) -> (r: Option<(i32, Option<i32>)>)
    ensures
        r == face_vertex_of(tok@),
{
    let parts: Vec<Vec<char>> = split(tok, '/');
    assert(pieces(parts@).len() == parts.len());
    assert(pieces(parts@)[0] == parts@[0]@);
    let v: i32 = match parse_int(parts[0].as_slice()) {
        Some(v) => v,
        None => return None,
    };
    if parts.len() >= 3 {
        assert(pieces(parts@)[2] == parts@[2]@);
        if parts[2].len() > 0 {
            return match parse_int(parts[2].as_slice()) {
                Some(n) => Some((v, Some(n))),
                None => None,
            };
        }
    }
    Some((v, None))
}

/// Read three numbers behind the first token.
fn parse_vec3<F: Fn(&str) -> Option<F32Bits>>(t: &Vec<Vec<char>>, number: &F) -> (r: Option<
    [F32Bits; 3],
>)
    requires
        forall|s: &str| #[trigger] call_requires(*number, (s,)),
    ensures
        forall|value: Numbers| #[trigger]
            reads(*number, value) ==> {
                &&& r is Some <==> vec3_of(pieces(t@), value) is Some
                &&& r matches Some(v) ==> vec3_of(pieces(t@), value) == Some(v@)
            },
{
    assert(pieces(t@).len() == t.len());
    if t.len() < 4 {
        return None;
    }
    let a: String = string_of(t[1].as_slice());
    let b: String = string_of(t[2].as_slice());
    let c: String = string_of(t[3].as_slice());
    let x: Option<F32Bits> = number(a.as_str());
    let y: Option<F32Bits> = number(b.as_str());
    let z: Option<F32Bits> = number(c.as_str());
    assert(pieces(t@)[1] == a@ && pieces(t@)[2] == b@ && pieces(t@)[3] == c@);
    match (x, y, z) {
        (Some(x), Some(y), Some(z)) => {
            let v: [F32Bits; 3] = [x, y, z];
            assert(v@ =~= seq![x, y, z]);
            Some(v)
        },
        _ => None,
    }
}

/// A model as it is read.
pub struct ObjModel {
    pub positions: Vec<[F32Bits; 3]>,
    pub normals: Vec<[F32Bits; 3]>,
    pub tris: Vec<Tri>,
}

impl View for ObjModel {
    type V = ObjView;

    open spec fn view(&self) -> ObjView {
        ObjView {
            positions: vec_views(self.positions@),
            normals: vec_views(self.normals@),
            tris: tri_views(self.tris@),
        }
    }
}

/// The corner that a face token names.
fn read_corner(m: &ObjModel, line: usize, tok: &Vec<char>) -> (r: Result<Corner, String>)
    ensures
        r matches Ok(c) ==> corner_of(m@, line as nat, tok@) == Ok::<CornerView, Seq<char>>(
            corner_view(c),
        ),
        r matches Err(e) ==> corner_of(m@, line as nat, tok@) == Err::<CornerView, Seq<char>>(e@),
{
    let (v, n) = match parse_face_vertex(tok.as_slice()) {
        Some(p) => p,
        None => {
            let s: String = string_of(tok.as_slice());
            let shown: String = to_debug(s.as_str());
            return Err(malformed_face(line, shown.as_str()));
        },
    };
    assert(vec_views(m.positions@).len() == m.positions.len());
    assert(vec_views(m.normals@).len() == m.normals.len());
    let i: usize = match resolve(m.positions.len(), v) {
        Some(i) => i,
        None => return Err(line_error(line, "vertex index out of range")),
    };
    assert(m@.positions[i as int] == m.positions@[i as int]@);
    match n {
        None => Ok(Corner { pos: m.positions[i], normal: None }),
        Some(n) => match resolve(m.normals.len(), n) {
            Some(j) => {
                assert(m@.normals[j as int] == m.normals@[j as int]@);
                Ok(Corner { pos: m.positions[i], normal: Some(m.normals[j]) })
            },
            None => Err(line_error(line, "normal index out of range")),
        },
    }
}

/// The corners of a face, whose tokens stand behind the first.
fn read_corners(m: &ObjModel, line: usize, t: &Vec<Vec<char>>) -> (r: Result<Vec<Corner>, String>)
    requires
        t.len() > 0,
    ensures
        r matches Ok(c) ==> corners_of(
            m@,
            line as nat,
            pieces(t@).skip(1),
            (t@.len() - 1) as nat,
        ) == Ok::<Seq<CornerView>, Seq<char>>(corner_views(c@)),
        r matches Err(e) ==> corners_of(
            m@,
            line as nat,
            pieces(t@).skip(1),
            (t@.len() - 1) as nat,
        ) == Err::<Seq<CornerView>, Seq<char>>(e@),
{
    let ghost toks = pieces(t@).skip(1);
    let mut out: Vec<Corner> = Vec::new();
    let mut i: usize = 1;
    assert(corner_views(out@) =~= Seq::<CornerView>::empty());
    while i < t.len()
        invariant
            1 <= i <= t.len(),
            toks == pieces(t@).skip(1),
            corners_of(m@, line as nat, toks, (i - 1) as nat) == Ok::<Seq<CornerView>, Seq<char>>(
                corner_views(out@),
            ),
        decreases t.len() - i,
    {
        let ghost before = out@;
        assert(toks[i - 1] == t@[i as int]@);
        match read_corner(m, line, &t[i]) {
            Ok(c) => {
                out.push(c);
                assert(corner_views(out@) =~= corner_views(before).push(corner_view(c)));
            },
            Err(e) => {
                proof {
                    assert(corners_of(m@, line as nat, toks, i as nat) == Err::<
                        Seq<CornerView>,
                        Seq<char>,
                    >(e@));
                    lemma_corners_err(m@, line as nat, toks, i as nat, (t@.len() - 1) as nat);
                }
                return Err(e);
            },
        }
        i = i + 1;
    }
    Ok(out)
}

/// Append the triangles of a fan over `c`.
fn push_fan(tris: &mut Vec<Tri>, c: &Vec<Corner>)
    requires
        c.len() >= 3,
    ensures
        tri_views(final(tris)@) == tri_views(old(tris)@) + fan(
            corner_views(c@),
            (c@.len() - 2) as nat,
        ),
{
    let ghost start = tri_views(tris@);
    let ghost cv = corner_views(c@);
    let mut i: usize = 1;
    assert(tri_views(tris@) =~= start + fan(cv, 0));
    while i < c.len() - 1
        invariant
            1 <= i <= c.len() - 1,
            c.len() >= 3,
            cv == corner_views(c@),
            tri_views(tris@) == start + fan(cv, (i - 1) as nat),
        decreases c.len() - i,
    {
        let ghost before = tris@;
        let t = Tri { verts: [c[0], c[i], c[i + 1]] };
        tris.push(t);
        proof {
            assert(tri_view(t) =~= seq![cv[0], cv[i as int], cv[i + 1]]);
            assert(tri_views(tris@) =~= tri_views(before).push(tri_view(t)));
            assert(fan(cv, i as nat) =~= fan(cv, (i - 1) as nat).push(
                seq![cv[0], cv[i as int], cv[i + 1]],
            ));
            assert(tri_views(tris@) =~= start + fan(cv, i as nat));
        }
        i = i + 1;
    }
}

/// Read one line into the model; the result says what went wrong.
fn read_obj_line<F: Fn(&str) -> Option<F32Bits>>(
    m: &mut ObjModel,
    line: usize,
    t: &Vec<Vec<char>>,
    number: &F,
) -> (r: Result<(), String>)
    requires
        forall|s: &str| #[trigger] call_requires(*number, (s,)),
    ensures
        forall|value: Numbers| #[trigger]
            reads(*number, value) ==> match r {
                Ok(_) => read_line(old(m)@, line as nat, pieces(t@), value) == Ok::<
                    ObjView,
                    Seq<char>,
                >(final(m)@),
                Err(e) => read_line(old(m)@, line as nat, pieces(t@), value) == Err::<
                    ObjView,
                    Seq<char>,
                >(e@),
            },
{
    let ghost before = m@;
    let ghost toks = pieces(t@);
    assert(toks.len() == t.len());
    if t.len() == 0 {
        return Ok(());
    }
    assert(toks[0] == t@[0]@);
    proof {
        reveal_strlit("v");
        reveal_strlit("vn");
        reveal_strlit("f");
        assert("v"@.len() == 1 && "vn"@.len() == 2 && "f"@.len() == 1);
        assert("v"@[0] != "f"@[0]);
    }
    if piece_is(&t[0], "v") {
        match parse_vec3(t, number) {
            Some(v) => {
                m.positions.push(v);
                assert(m@.positions =~= before.positions.push(v@));
                assert(m@.tris =~= before.tris);
            },
            None => return Err(line_error(line, "malformed vertex")),
        }
    } else if piece_is(&t[0], "vn") {
        match parse_vec3(t, number) {
            Some(v) => {
                m.normals.push(v);
                assert(m@.normals =~= before.normals.push(v@));
            },
            None => return Err(line_error(line, "malformed normal")),
        }
    } else if piece_is(&t[0], "f") {
        match read_corners(m, line, t) {
            Ok(c) => {
                assert(corner_views(c@).len() == c.len());
                if c.len() < 3 {
                    return Err(line_error(line, "face has < 3 vertices"));
                }
                push_fan(&mut m.tris, &c);
            },
            Err(e) => return Err(e),
        }
    }
    Ok(())
}

/// `r` is what parsing a source gives, where numbers are read as `value` says.
pub open spec fn parsed(source: Seq<char>, value: Numbers, r: Result<ObjModel, String>) -> bool {
    match r {
        Ok(m) => obj_of(source, value) == Ok::<ObjView, Seq<char>>(m@),
        Err(e) => obj_of(source, value) == Err::<ObjView, Seq<char>>(e@),
    }
}

/// Read a model: vertices, normals and faces; other lines are passed over. The
/// number closure reads the numbers of vertices and normals.
pub fn parse_obj<F: Fn(&str) -> Option<F32Bits>>(source: &str, number: F) -> (r: Result<
    ObjModel,
    String,
>)
    requires
        forall|s: &str| #[trigger] call_requires(number, (s,)),
    ensures
        forall|value: Numbers| #[trigger] reads(number, value) ==> parsed(source@, value, r),
{
    let chars: Vec<char> = chars_of(source);
    let lines: Vec<Vec<char>> = split(chars.as_slice(), '\n');
    let ghost all = pieces(lines@);
    let mut m = ObjModel { positions: Vec::new(), normals: Vec::new(), tris: Vec::new() };
    let mut i: usize = 0;
    proof {
        let start = ObjView { positions: Seq::empty(), normals: Seq::empty(), tris: Seq::empty() };
        assert(m@ =~= start);
    }
    while i < lines.len()
        invariant
            i <= lines.len(),
            all == pieces(lines@),
            all == split_at(source@, '\n'),
            forall|s: &str| #[trigger] call_requires(number, (s,)),
            forall|value: Numbers| #[trigger]
                reads(number, value) ==> read_lines(all, i as nat, value) == Ok::<
                    ObjView,
                    Seq<char>,
                >(m@),
        decreases lines.len() - i,
    {
        assert(all[i as int] == lines@[i as int]@);
        let ghost before = m@;
        let t: Vec<Vec<char>> = tokens(lines[i].as_slice());
        match read_obj_line(&mut m, i + 1, &t, &number) {
            Ok(_) => {},
            Err(e) => {
                assert forall|value: Numbers| #[trigger] reads(number, value) implies obj_of(
                    source@,
                    value,
                ) == Err::<ObjView, Seq<char>>(e@) by {
                    assert(read_lines(all, (i + 1) as nat, value) == Err::<ObjView, Seq<char>>(e@));
                    lemma_lines_err(all, (i + 1) as nat, all.len(), value);
                }
                return Err(e);
            },
        }
        i = i + 1;
    }
    Ok(m)
}

/// A face of `n` corners gives `n - 2` triangles that all share the first corner.
pub proof fn law_fan_shares_the_first_corner(c: Seq<CornerView>, i: int)
    requires
        c.len() >= 3,
        0 <= i < c.len() - 2,
    ensures
        fan(c, (c.len() - 2) as nat).len() == c.len() - 2,
        fan(c, (c.len() - 2) as nat)[i][0] == c[0],
        fan(c, (c.len() - 2) as nat)[i][2] == c[i + 2],
        i > 0 ==> fan(c, (c.len() - 2) as nat)[i][1] == fan(c, (c.len() - 2) as nat)[i - 1][2],
{
}

} // verus!
