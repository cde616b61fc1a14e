//! Pieces of the baked scene format: texts, floats and points, written and read
//! back through a bounds-checked cursor.

use crate::bytes::{
    lemma_u16_at, lemma_u32_at, push_bytes, push_u16, push_u32, read_u16, read_u32, u16_at, u16_le,
    u32_at, u32_le,
};
use crate::float::F32Bits;
use vstd::prelude::*;
use vstd::utf8::{
    decode_utf8, encode_utf8, encode_utf8_decode_utf8,
    encode_utf8_valid_utf8, valid_utf8,
};

verus! {

/// The error of [`core::str::from_utf8`]; nothing of it is looked at.
#[verifier::external_type_specification]
#[verifier::external_body]
pub struct ExUtf8Error(core::str::Utf8Error);

/// [`core::str::from_utf8`] succeeds exactly on valid UTF-8, with the text of
/// those bytes.
pub assume_specification<'a>[ core::str::from_utf8 ](v: &'a [u8]) -> (r: Result<
    &'a str,
    core::str::Utf8Error,
>)
    ensures
        r is Ok <==> valid_utf8(v@),
        r matches Ok(s) ==> encode_utf8(s@) == v@,
;

/// `part` stands in `s` at offset `p`.
#[verifier::opaque]
pub open spec fn holds_at(s: Seq<u8>, p: int, part: Seq<u8>) -> bool {
    0 <= p && p + part.len() <= s.len() && s.subrange(p, p + part.len()) == part
}

/// Where a concatenation stands, its parts stand behind each other.
pub proof fn lemma_holds_split(s: Seq<u8>, p: int, a: Seq<u8>, b: Seq<u8>)
    requires
        holds_at(s, p, a + b),
    ensures
        holds_at(s, p, a),
        holds_at(s, p + a.len(), b),
        0 <= p,
        p + a.len() + b.len() <= s.len(),
{
    reveal(holds_at);
    let all = s.subrange(p, p + (a + b).len());
    assert(all == a + b);
    assert forall|i: int| 0 <= i < a.len() implies s.subrange(p, p + a.len())[i] == a[i] by {
        assert(all[i] == (a + b)[i]);
    }
    assert(s.subrange(p, p + a.len()) =~= a);
    let q = p + a.len();
    assert forall|i: int| 0 <= i < b.len() implies s.subrange(q, q + b.len())[i] == b[i] by {
        assert(all[a.len() + i] == (a + b)[a.len() + i]);
    }
    assert(s.subrange(q, q + b.len()) =~= b);
}

/// A part of a whole stands where the whole stands.
pub proof fn lemma_holds_whole(s: Seq<u8>)
    ensures
        holds_at(s, 0, s),
{
    reveal(holds_at);
    assert(s.subrange(0, s.len() as int) =~= s);
}

/// A written halfword reads back.
pub proof fn lemma_u16_holds(s: Seq<u8>, p: int, v: u16)
    requires
        holds_at(s, p, u16_le(v)),
    ensures
        u16_at(s, p) == v,
        0 <= p && p + 2 <= s.len(),
{
    reveal(holds_at);
    lemma_u16_at(s, p, v);
}

/// A written word reads back.
pub proof fn lemma_u32_holds(s: Seq<u8>, p: int, v: u32)
    requires
        holds_at(s, p, u32_le(v)),
    ensures
        u32_at(s, p) == v,
        0 <= p && p + 4 <= s.len(),
{
    reveal(holds_at);
    lemma_u32_at(s, p, v);
}

/// A text: its length in bytes as `u16`, then its UTF-8 bytes.
pub open spec fn text_le(t: Seq<char>) -> Seq<u8> {
    u16_le(encode_utf8(t).len() as u16) + encode_utf8(t)
}

/// The text at offset `p` and the offset behind it; nothing where the bytes end
/// early or are not UTF-8.
pub open spec fn text_at(s: Seq<u8>, p: int) -> Option<(Seq<char>, int)> {
    let e = p + 2 + u16_at(s, p);
    if p + 2 > s.len() || e > s.len() || !valid_utf8(s.subrange(p + 2, e)) {
        None
    } else {
        Some((decode_utf8(s.subrange(p + 2, e)), e))
    }
}

/// A written text reads back.
pub proof fn lemma_text_at(s: Seq<u8>, p: int, t: Seq<char>)
    requires
        holds_at(s, p, text_le(t)),
        encode_utf8(t).len() <= 0xffff,
    ensures
        text_at(s, p) == Some((t, p + text_le(t).len())),
{
    broadcast use encode_utf8_valid_utf8, encode_utf8_decode_utf8;

    let b = encode_utf8(t);
    lemma_holds_split(s, p, u16_le(b.len() as u16), b);
    lemma_u16_holds(s, p, b.len() as u16);
    reveal(holds_at);
    assert(s.subrange(p + 2, p + 2 + b.len()) =~= b);
}

/// A text that a part of a blob gives, the whole blob gives too.
pub proof fn lemma_text_in_prefix(s: Seq<u8>, k: int, p: int)
    requires
        0 <= p,
        0 <= k <= s.len(),
        text_at(s.subrange(0, k), p) is Some,
    ensures
        text_at(s, p) == text_at(s.subrange(0, k), p),
        (text_at(s, p)->0).1 <= k,
        (text_at(s, p)->0).1 >= p,
{
    let t = s.subrange(0, k);
    assert(u16_at(t, p) == u16_at(s, p));
    let e = p + 2 + u16_at(s, p);
    assert(t.subrange(p + 2, e) =~= s.subrange(p + 2, e));
}

/// Floats, one word each.
pub open spec fn floats_le(v: Seq<F32Bits>) -> Seq<u8>
    decreases v.len(),
{
    if v.len() == 0 {
        Seq::empty()
    } else {
        floats_le(v.drop_last()) + u32_le(v.last().0)
    }
}

/// The `n` floats at offset `p`.
pub open spec fn floats_at(s: Seq<u8>, p: int, n: nat) -> Seq<F32Bits> {
    Seq::new(n, |i: int| F32Bits(u32_at(s, p + 4 * i)))
}

pub proof fn lemma_floats_len(v: Seq<F32Bits>)
    ensures
        floats_le(v).len() == 4 * v.len(),
    decreases v.len(),
{
    if v.len() > 0 {
        lemma_floats_len(v.drop_last());
    }
}

/// Written floats read back.
pub proof fn lemma_floats_at(s: Seq<u8>, p: int, v: Seq<F32Bits>)
    requires
        holds_at(s, p, floats_le(v)),
    ensures
        floats_at(s, p, v.len()) == v,
    decreases v.len(),
{
    lemma_floats_len(v);
    if v.len() > 0 {
        let init = v.drop_last();
        lemma_floats_len(init);
        lemma_holds_split(s, p, floats_le(init), u32_le(v.last().0));
        lemma_floats_at(s, p, init);
        lemma_u32_holds(s, p + 4 * init.len(), v.last().0);
        assert forall|i: int| 0 <= i < v.len() implies floats_at(s, p, v.len())[i] == v[i] by {
            if i < init.len() {
                assert(floats_at(s, p, init.len())[i] == init[i]);
            }
        }
    }
    assert(floats_at(s, p, v.len()) =~= v);
}

/// A point on the ground plane.
pub type Point = (F32Bits, F32Bits);

/// The points of a path, each as a pair.
pub open spec fn points_of(path: Seq<[F32Bits; 2]>) -> Seq<Point> {
    Seq::new(path.len(), |i: int| (path[i]@[0], path[i]@[1]))
}

/// Points, two words each.
pub open spec fn points_le(v: Seq<Point>) -> Seq<u8>
    decreases v.len(),
{
    if v.len() == 0 {
        Seq::empty()
    } else {
        points_le(v.drop_last()) + (u32_le(v.last().0.0) + u32_le(v.last().1.0))
    }
}

/// The `n` points at offset `p`.
pub open spec fn points_at(s: Seq<u8>, p: int, n: nat) -> Seq<Point> {
    Seq::new(n, |i: int| (F32Bits(u32_at(s, p + 8 * i)), F32Bits(u32_at(s, p + 8 * i + 4))))
}

pub proof fn lemma_points_len(v: Seq<Point>)
    ensures
        points_le(v).len() == 8 * v.len(),
    decreases v.len(),
{
    if v.len() > 0 {
        lemma_points_len(v.drop_last());
    }
}

/// Written points read back.
pub proof fn lemma_points_at(s: Seq<u8>, p: int, v: Seq<Point>)
    requires
        holds_at(s, p, points_le(v)),
    ensures
        points_at(s, p, v.len()) == v,
    decreases v.len(),
{
    lemma_points_len(v);
    if v.len() > 0 {
        let init = v.drop_last();
        let last = v.last();
        lemma_points_len(init);
        let q = p + 8 * init.len();
        lemma_holds_split(s, p, points_le(init), u32_le(last.0.0) + u32_le(last.1.0));
        lemma_holds_split(s, q, u32_le(last.0.0), u32_le(last.1.0));
        lemma_points_at(s, p, init);
        lemma_u32_holds(s, q, last.0.0);
        lemma_u32_holds(s, q + 4, last.1.0);
        assert forall|i: int| 0 <= i < v.len() implies points_at(s, p, v.len())[i] == v[i] by {
            if i < init.len() {
                assert(points_at(s, p, init.len())[i] == init[i]);
            }
        }
    }
    assert(points_at(s, p, v.len()) =~= v);
}

/// Append a text.
pub fn push_string(out: &mut Vec<u8>, t: &str)
    ensures
        final(out)@ == old(out)@ + text_le(t@),
{
    let b: &[u8] = t.as_bytes();
    push_u16(out, b.len() as u16);
    push_bytes(out, b);
    assert(out@ =~= old(out)@ + text_le(t@));
}

/// Append a float.
pub fn push_f32(out: &mut Vec<u8>, v: F32Bits)
    ensures
        final(out)@ == old(out)@ + u32_le(v.0),
{
    push_u32(out, v.0);
}

/// Append three floats.
pub fn push_vec3(out: &mut Vec<u8>, v: &[F32Bits; 3])
    ensures
        final(out)@ == old(out)@ + floats_le(v@),
{
    let ghost before = out@;
    push_f32(out, v[0]);
    push_f32(out, v[1]);
    push_f32(out, v[2]);
    proof {
        lemma_three_floats(v@);
        assert(out@ =~= before + floats_le(v@));
    }
}

proof fn lemma_three_floats(v: Seq<F32Bits>)
    requires
        v.len() == 3,
    ensures
        floats_le(v) == u32_le(v[0].0) + u32_le(v[1].0) + u32_le(v[2].0),
{
    reveal_with_fuel(floats_le, 4);
    assert(floats_le(v) =~= u32_le(v[0].0) + u32_le(v[1].0) + u32_le(v[2].0));
}

/// Append the points of a path.
pub fn push_path(out: &mut Vec<u8>, path: &Vec<[F32Bits; 2]>)
    ensures
        final(out)@ == old(out)@ + points_le(points_of(path@)),
{
    let ghost before = out@;
    let ghost pts = points_of(path@);
    let mut i: usize = 0;
    assert(pts.take(0) =~= Seq::<Point>::empty());
    assert(out@ =~= before + points_le(pts.take(0)));
    while i < path.len()
        invariant
            i <= path.len(),
            pts == points_of(path@),
            out@ == before + points_le(pts.take(i as int)),
        decreases path.len() - i,
    {
        let ghost mid = out@;
        push_f32(out, path[i][0]);
        push_f32(out, path[i][1]);
        proof {
            let part = pts.take(i + 1);
            assert(part.drop_last() =~= pts.take(i as int));
            assert(part.last() == pts[i as int]);
            assert(out@ =~= before + points_le(part));
        }
        i = i + 1;
    }
    assert(pts.take(path.len() as int) =~= pts);
}

/// A bounds-checked little-endian cursor. Every read past the end gives `None`
/// and leaves the cursor where it was.
pub struct Reader<'a> {
    pub bytes: &'a [u8],
    pub pos: usize,
}

impl<'a> Reader<'a> {
    /// The cursor stands within the bytes.
    pub open spec fn wf(self) -> bool {
        self.pos <= self.bytes@.len()
    }

    /// A cursor at the start.
    pub fn new(bytes: &'a [u8]) -> (r: Self)
        ensures
            r.wf(),
            r.bytes@ == bytes@,
            r.pos == 0,
    {
        Reader { bytes, pos: 0 }
    }

    /// Step over `n` bytes; gives the offset they start at.
    pub fn take(&mut self, n: usize) -> (r: Option<usize>)
        requires
            old(self).wf(),
        ensures
            final(self).wf(),
            final(self).bytes@ == old(self).bytes@,
            r is Some <==> old(self).pos + n <= old(self).bytes@.len(),
            r matches Some(p) ==> p == old(self).pos && final(self).pos == old(self).pos + n,
            r is None ==> final(self).pos == old(self).pos,
    {
        let start: usize = self.pos;
        if n > self.bytes.len() - start {
            return None;
        }
        self.pos = start + n;
        Some(start)
    }

    /// Read a byte.
    pub fn u8(&mut self) -> (r: Option<u8>)
        requires
            old(self).wf(),
        ensures
            final(self).wf(),
            final(self).bytes@ == old(self).bytes@,
            r is Some <==> old(self).pos + 1 <= old(self).bytes@.len(),
            r matches Some(v) ==> v == old(self).bytes@[old(self).pos as int] && final(self).pos
                == old(self).pos + 1,
            r is None ==> final(self).pos == old(self).pos,
    {
        match self.take(1) {
            Some(p) => Some(self.bytes[p]),
            None => None,
        }
    }

    /// Read a `u16`.
    pub fn u16(&mut self) -> (r: Option<u16>)
        requires
            old(self).wf(),
        ensures
            final(self).wf(),
            final(self).bytes@ == old(self).bytes@,
            r is Some <==> old(self).pos + 2 <= old(self).bytes@.len(),
            r matches Some(v) ==> v == u16_at(old(self).bytes@, old(self).pos as int) && final(self).pos == old(self).pos + 2,
            r is None ==> final(self).pos == old(self).pos,
    {
        match self.take(2) {
            Some(p) => Some(read_u16(self.bytes, p)),
            None => None,
        }
    }

    /// Read a `u32`.
    pub fn u32(&mut self) -> (r: Option<u32>)
        requires
            old(self).wf(),
        ensures
            final(self).wf(),
            final(self).bytes@ == old(self).bytes@,
            r is Some <==> old(self).pos + 4 <= old(self).bytes@.len(),
            r matches Some(v) ==> v == u32_at(old(self).bytes@, old(self).pos as int) && final(self).pos == old(self).pos + 4,
            r is None ==> final(self).pos == old(self).pos,
    {
        match self.take(4) {
            Some(p) => Some(read_u32(self.bytes, p)),
            None => None,
        }
    }

    /// Read a float.
    pub fn float(&mut self) -> (r: Option<F32Bits>)
        requires
            old(self).wf(),
        ensures
            final(self).wf(),
            final(self).bytes@ == old(self).bytes@,
            r is Some <==> old(self).pos + 4 <= old(self).bytes@.len(),
            r matches Some(v) ==> v.0 == u32_at(old(self).bytes@, old(self).pos as int) && final(self).pos == old(self).pos + 4,
            r is None ==> final(self).pos == old(self).pos,
    {
        match self.u32() {
            Some(v) => Some(F32Bits(v)),
            None => None,
        }
    }

    /// Read three floats.
    pub fn vec3(&mut self) -> (r: Option<[F32Bits; 3]>)
        requires
            old(self).wf(),
        ensures
            final(self).wf(),
            final(self).bytes@ == old(self).bytes@,
            r is Some <==> old(self).pos + 12 <= old(self).bytes@.len(),
            r matches Some(v) ==> v@ == floats_at(old(self).bytes@, old(self).pos as int, 3)
                && final(self).pos == old(self).pos + 12,
    {
        let ghost p = self.pos as int;
        let x: F32Bits = self.float()?;
        let y: F32Bits = self.float()?;
        let z: F32Bits = self.float()?;
        let v: [F32Bits; 3] = [x, y, z];
        assert(v@ =~= floats_at(self.bytes@, p, 3));
        Some(v)
    }

    /// Read four floats.
    pub fn vec4(&mut self) -> (r: Option<[F32Bits; 4]>)
        requires
            old(self).wf(),
        ensures
            final(self).wf(),
            final(self).bytes@ == old(self).bytes@,
            r is Some <==> old(self).pos + 16 <= old(self).bytes@.len(),
            r matches Some(v) ==> v@ == floats_at(old(self).bytes@, old(self).pos as int, 4)
                && final(self).pos == old(self).pos + 16,
    {
        let ghost p = self.pos as int;
        let x: F32Bits = self.float()?;
        let y: F32Bits = self.float()?;
        let z: F32Bits = self.float()?;
        let w: F32Bits = self.float()?;
        let v: [F32Bits; 4] = [x, y, z, w];
        assert(v@ =~= floats_at(self.bytes@, p, 4));
        Some(v)
    }

    /// Read three bytes.
    pub fn rgb(&mut self) -> (r: Option<[u8; 3]>)
        requires
            old(self).wf(),
        ensures
            final(self).wf(),
            final(self).bytes@ == old(self).bytes@,
            r is Some <==> old(self).pos + 3 <= old(self).bytes@.len(),
            r matches Some(v) ==> v@ == old(self).bytes@.subrange(
                old(self).pos as int,
                old(self).pos + 3,
            ) && final(self).pos == old(self).pos + 3,
    {
        let ghost p = self.pos as int;
        let x: u8 = self.u8()?;
        let y: u8 = self.u8()?;
        let z: u8 = self.u8()?;
        let v: [u8; 3] = [x, y, z];
        assert(v@ =~= self.bytes@.subrange(p, p + 3));
        Some(v)
    }

    /// Read a text: a `u16` length, then that many bytes of UTF-8.
    pub fn string(&mut self) -> (r: Option<String>)
        requires
            old(self).wf(),
        ensures
            final(self).wf(),
            final(self).bytes@ == old(self).bytes@,
            r is Some <==> text_at(old(self).bytes@, old(self).pos as int) is Some,
            r matches Some(t) ==> text_at(old(self).bytes@, old(self).pos as int) == Some(
                (t@, final(self).pos as int),
            ),
    {
        broadcast use encode_utf8_decode_utf8;

        let len: u16 = self.u16()?;
        let p: usize = self.take(len as usize)?;
        let b: Vec<u8> = crate::bytes::copy_range(self.bytes, p, self.pos);
        match core::str::from_utf8(b.as_slice()) {
            Ok(t) => Some(t.to_owned()),
            Err(_) => None,
        }
    }

    /// Read `n` points.
    pub fn points(&mut self, n: u16) -> (r: Option<Vec<[F32Bits; 2]>>)
        requires
            old(self).wf(),
        ensures
            final(self).wf(),
            final(self).bytes@ == old(self).bytes@,
            r is Some <==> old(self).pos + 8 * n <= old(self).bytes@.len(),
            r matches Some(v) ==> points_of(v@) == points_at(
                old(self).bytes@,
                old(self).pos as int,
                n as nat,
            ) && final(self).pos == old(self).pos + 8 * n,
    {
        let ghost start = self.pos as int;
        let mut v: Vec<[F32Bits; 2]> = Vec::new();
        let mut i: u16 = 0;
        while i < n
            invariant
                i <= n,
                self.wf(),
                self.bytes@ == old(self).bytes@,
                start == old(self).pos,
                self.pos == start + 8 * i,
                v.len() == i,
                forall|k: int|
                    0 <= k < i ==> points_of(v@)[k] == points_at(self.bytes@, start, n as nat)[k],
            decreases n - i,
        {
            let x: F32Bits = self.float()?;
            let z: F32Bits = self.float()?;
            let ghost before = v@;
            v.push([x, z]);
            assert forall|k: int| 0 <= k < i + 1 implies points_of(v@)[k] == points_at(
                self.bytes@,
                start,
                n as nat,
            )[k] by {
                if k < i {
                    assert(points_of(before)[k] == points_at(self.bytes@, start, n as nat)[k]);
                }
            }
            i = i + 1;
        }
        assert(points_of(v@) =~= points_at(self.bytes@, start, n as nat));
        Some(v)
    }
}

} // verus!
