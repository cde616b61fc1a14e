//! Little-endian byte encoding, shared by every binary format of the library.

use vstd::prelude::*;

verus! {

/// The two bytes of `v`, low byte first.
pub open spec fn u16_le(v: u16) -> Seq<u8> {
    seq![(v % 256) as u8, (v / 256) as u8]
}

/// The four bytes of `v`, low byte first.
pub open spec fn u32_le(v: u32) -> Seq<u8> {
    seq![
        (v % 256) as u8,
        ((v / 256) % 256) as u8,
        ((v / 65536) % 256) as u8,
        (v / 16777216) as u8,
    ]
}

/// The 16-bit number stored at `off`, low byte first.
pub open spec fn u16_at(s: Seq<u8>, off: int) -> u16 {
    (s[off] + 256 * s[off + 1]) as u16
}

/// The 32-bit number stored at `off`, low byte first.
pub open spec fn u32_at(s: Seq<u8>, off: int) -> u32 {
    (s[off] + 256 * s[off + 1] + 65536 * s[off + 2] + 16777216 * s[off + 3]) as u32
}

/// The 32-bit number stored at `off`, high byte first.
pub open spec fn u32_be_at(s: Seq<u8>, off: int) -> u32 {
    (16777216 * s[off] + 65536 * s[off + 1] + 256 * s[off + 2] + s[off + 3]) as u32
}

/// The 64-bit number stored at `off`, low byte first.
pub open spec fn u64_at(s: Seq<u8>, off: int) -> u64 {
    (u32_at(s, off) + 0x1_0000_0000 * u32_at(s, off + 4)) as u64
}

/// A run of 16-bit numbers, each low byte first.
pub open spec fn u16s_le(v: Seq<u16>) -> Seq<u8>
    decreases v.len(),
{
    if v.len() == 0 {
        Seq::empty()
    } else {
        u16s_le(v.drop_last()) + u16_le(v.last())
    }
}

/// A run of 32-bit numbers, each low byte first.
pub open spec fn u32s_le(v: Seq<u32>) -> Seq<u8>
    decreases v.len(),
{
    if v.len() == 0 {
        Seq::empty()
    } else {
        u32s_le(v.drop_last()) + u32_le(v.last())
    }
}

/// The `n` 16-bit numbers stored from `off` on.
pub open spec fn u16s_at(s: Seq<u8>, off: int, n: nat) -> Seq<u16> {
    Seq::new(n, |i: int| u16_at(s, off + 2 * i))
}

/// The `n` 32-bit numbers stored from `off` on.
pub open spec fn u32s_at(s: Seq<u8>, off: int, n: nat) -> Seq<u32> {
    Seq::new(n, |i: int| u32_at(s, off + 4 * i))
}

/// Read a little-endian `u16`.
pub fn read_u16(bytes: &[u8], off: usize) -> (r: u16)
    requires
        off + 2 <= bytes.len(),
    ensures
        r == u16_at(bytes@, off as int),
{
    bytes[off] as u16 + 256 * bytes[off + 1] as u16
}

/// Read a little-endian `u32`.
pub fn read_u32(bytes: &[u8], off: usize) -> (r: u32)
    requires
        off + 4 <= bytes.len(),
    ensures
        r == u32_at(bytes@, off as int),
{
    bytes[off] as u32 + 256 * bytes[off + 1] as u32 + 65536 * bytes[off + 2] as u32 + 16777216
        * bytes[off + 3] as u32
}

/// Read a big-endian `u32`.
pub fn read_u32_be(bytes: &[u8], off: usize) -> (r: u32)
    requires
        off + 4 <= bytes.len(),
    ensures
        r == u32_be_at(bytes@, off as int),
{
    16777216 * bytes[off] as u32 + 65536 * bytes[off + 1] as u32 + 256 * bytes[off + 2] as u32
        + bytes[off + 3] as u32
}

/// Read a little-endian `u64`.
pub fn read_u64(bytes: &[u8], off: usize) -> (r: u64)
    requires
        off + 8 <= bytes.len(),
    ensures
        r == u64_at(bytes@, off as int),
{
    read_u32(bytes, off) as u64 + 0x1_0000_0000 * read_u32(bytes, off + 4) as u64
}

/// Append a little-endian `u16`.
pub fn push_u16(out: &mut Vec<u8>, v: u16)
    ensures
        final(out)@ == old(out)@ + u16_le(v),
{
    out.push((v % 256) as u8);
    out.push((v / 256) as u8);
    assert(out@ =~= old(out)@ + u16_le(v));
}

/// Append a little-endian `u32`.
pub fn push_u32(out: &mut Vec<u8>, v: u32)
    ensures
        final(out)@ == old(out)@ + u32_le(v),
{
    out.push((v % 256) as u8);
    out.push(((v / 256) % 256) as u8);
    out.push(((v / 65536) % 256) as u8);
    out.push((v / 16777216) as u8);
    assert(out@ =~= old(out)@ + u32_le(v));
}

/// Append a byte slice.
pub fn push_bytes(out: &mut Vec<u8>, v: &[u8])
    ensures
        final(out)@ == old(out)@ + v@,
{
    let mut i: usize = 0;
    while i < v.len()
        invariant
            i <= v.len(),
            out@ == old(out)@ + v@.subrange(0, i as int),
        decreases v.len() - i,
    {
        out.push(v[i]);
        i = i + 1;
    }
    assert(v@.subrange(0, v.len() as int) =~= v@);
}

/// Append a run of little-endian `u16`s.
pub fn push_u16s(out: &mut Vec<u8>, v: &[u16])
    ensures
        final(out)@ == old(out)@ + u16s_le(v@),
{
    let mut i: usize = 0;
    assert(v@.subrange(0, 0) =~= Seq::<u16>::empty());
    while i < v.len()
        invariant
            i <= v.len(),
            out@ == old(out)@ + u16s_le(v@.subrange(0, i as int)),
        decreases v.len() - i,
    {
        push_u16(out, v[i]);
        proof {
            let next = v@.subrange(0, i + 1);
            assert(next.drop_last() =~= v@.subrange(0, i as int));
        }
        i = i + 1;
    }
    assert(v@.subrange(0, v.len() as int) =~= v@);
}

/// Append a run of little-endian `u32`s.
pub fn push_u32s(out: &mut Vec<u8>, v: &[u32])
    ensures
        final(out)@ == old(out)@ + u32s_le(v@),
{
    let mut i: usize = 0;
    assert(v@.subrange(0, 0) =~= Seq::<u32>::empty());
    while i < v.len()
        invariant
            i <= v.len(),
            out@ == old(out)@ + u32s_le(v@.subrange(0, i as int)),
        decreases v.len() - i,
    {
        push_u32(out, v[i]);
        proof {
            let next = v@.subrange(0, i + 1);
            assert(next.drop_last() =~= v@.subrange(0, i as int));
        }
        i = i + 1;
    }
    assert(v@.subrange(0, v.len() as int) =~= v@);
}

/// Read `n` little-endian `u16`s from `off` on.
pub fn read_u16s(bytes: &[u8], off: usize, n: usize) -> (r: Vec<u16>)
    requires
        off + 2 * n <= bytes.len(),
    ensures
        r@ == u16s_at(bytes@, off as int, n as nat),
{
    let mut out: Vec<u16> = Vec::new();
    let mut i: usize = 0;
    while i < n
        invariant
            i <= n,
            off + 2 * n <= bytes.len(),
            out.len() == i,
            forall|k: int| 0 <= k < i ==> out@[k] == #[trigger] u16_at(bytes@, off + 2 * k),
        decreases n - i,
    {
        out.push(read_u16(bytes, off + 2 * i));
        i = i + 1;
    }
    assert(out@ =~= u16s_at(bytes@, off as int, n as nat));
    out
}

/// Read `n` little-endian `u32`s from `off` on.
pub fn read_u32s(bytes: &[u8], off: usize, n: usize) -> (r: Vec<u32>)
    requires
        off + 4 * n <= bytes.len(),
    ensures
        r@ == u32s_at(bytes@, off as int, n as nat),
{
    let mut out: Vec<u32> = Vec::new();
    let mut i: usize = 0;
    while i < n
        invariant
            i <= n,
            off + 4 * n <= bytes.len(),
            out.len() == i,
            forall|k: int| 0 <= k < i ==> out@[k] == #[trigger] u32_at(bytes@, off + 4 * k),
        decreases n - i,
    {
        out.push(read_u32(bytes, off + 4 * i));
        i = i + 1;
    }
    assert(out@ =~= u32s_at(bytes@, off as int, n as nat));
    out
}

/// Copy `bytes[from..to]`.
pub fn copy_range(bytes: &[u8], from: usize, to: usize) -> (r: Vec<u8>)
    requires
        from <= to <= bytes.len(),
    ensures
        r@ == bytes@.subrange(from as int, to as int),
{
    let mut out: Vec<u8> = Vec::new();
    let mut i: usize = from;
    while i < to
        invariant
            from <= i <= to <= bytes.len(),
            out@ == bytes@.subrange(from as int, i as int),
        decreases to - i,
    {
        out.push(bytes[i]);
        i = i + 1;
    }
    out
}

/// A 16-bit number reads back from where its bytes stand.
pub proof fn lemma_u16_at(s: Seq<u8>, off: int, v: u16)
    requires
        0 <= off,
        off + 2 <= s.len(),
        s.subrange(off, off + 2) == u16_le(v),
    ensures
        u16_at(s, off) == v,
{
    let b = s.subrange(off, off + 2);
    assert(b[0] == s[off] && b[1] == s[off + 1]);
}

/// A 32-bit number reads back from where its bytes stand.
pub proof fn lemma_u32_at(s: Seq<u8>, off: int, v: u32)
    requires
        0 <= off,
        off + 4 <= s.len(),
        s.subrange(off, off + 4) == u32_le(v),
    ensures
        u32_at(s, off) == v,
{
    let b = s.subrange(off, off + 4);
    assert(b[0] == s[off] && b[1] == s[off + 1] && b[2] == s[off + 2] && b[3] == s[off + 3]);
}

/// The length of a run of 16-bit numbers, and where each of them stands in it.
pub proof fn lemma_u16s_le(v: Seq<u16>)
    ensures
        u16s_le(v).len() == 2 * v.len(),
        forall|i: int|
            0 <= i < v.len() ==> u16s_le(v).subrange(2 * i, 2 * i + 2) == u16_le(#[trigger] v[i]),
    decreases v.len(),
{
    if v.len() > 0 {
        let head = v.drop_last();
        lemma_u16s_le(head);
        assert forall|i: int| 0 <= i < v.len() implies u16s_le(v).subrange(2 * i, 2 * i + 2)
            == u16_le(#[trigger] v[i]) by {
            if i < head.len() {
                assert(head[i] == v[i]);
                assert(u16s_le(v).subrange(2 * i, 2 * i + 2) =~= u16s_le(head).subrange(
                    2 * i,
                    2 * i + 2,
                ));
            } else {
                assert(u16s_le(v).subrange(2 * i, 2 * i + 2) =~= u16_le(v[i]));
            }
        }
    }
}

/// The length of a run of 32-bit numbers, and where each of them stands in it.
pub proof fn lemma_u32s_le(v: Seq<u32>)
    ensures
        u32s_le(v).len() == 4 * v.len(),
        forall|i: int|
            0 <= i < v.len() ==> u32s_le(v).subrange(4 * i, 4 * i + 4) == u32_le(#[trigger] v[i]),
    decreases v.len(),
{
    if v.len() > 0 {
        let head = v.drop_last();
        lemma_u32s_le(head);
        assert forall|i: int| 0 <= i < v.len() implies u32s_le(v).subrange(4 * i, 4 * i + 4)
            == u32_le(#[trigger] v[i]) by {
            if i < head.len() {
                assert(head[i] == v[i]);
                assert(u32s_le(v).subrange(4 * i, 4 * i + 4) =~= u32s_le(head).subrange(
                    4 * i,
                    4 * i + 4,
                ));
            } else {
                assert(u32s_le(v).subrange(4 * i, 4 * i + 4) =~= u32_le(v[i]));
            }
        }
    }
}

/// A run of 16-bit numbers reads back from where its bytes stand.
pub proof fn lemma_u16s_at(s: Seq<u8>, off: int, v: Seq<u16>)
    requires
        0 <= off,
        off + 2 * v.len() <= s.len(),
        s.subrange(off, off + 2 * v.len()) == u16s_le(v),
    ensures
        u16s_at(s, off, v.len()) == v,
{
    lemma_u16s_le(v);
    let run = s.subrange(off, off + 2 * v.len());
    assert forall|i: int| 0 <= i < v.len() implies u16s_at(s, off, v.len())[i] == v[i] by {
        assert(s.subrange(off + 2 * i, off + 2 * i + 2) =~= run.subrange(2 * i, 2 * i + 2));
        assert(u16s_le(v).subrange(2 * i, 2 * i + 2) == u16_le(v[i]));
        lemma_u16_at(s, off + 2 * i, v[i]);
    }
    assert(u16s_at(s, off, v.len()) =~= v);
}

/// A run of 32-bit numbers reads back from where its bytes stand.
pub proof fn lemma_u32s_at(s: Seq<u8>, off: int, v: Seq<u32>)
    requires
        0 <= off,
        off + 4 * v.len() <= s.len(),
        s.subrange(off, off + 4 * v.len()) == u32s_le(v),
    ensures
        u32s_at(s, off, v.len()) == v,
{
    lemma_u32s_le(v);
    let run = s.subrange(off, off + 4 * v.len());
    assert forall|i: int| 0 <= i < v.len() implies u32s_at(s, off, v.len())[i] == v[i] by {
        assert(s.subrange(off + 4 * i, off + 4 * i + 4) =~= run.subrange(4 * i, 4 * i + 4));
        assert(u32s_le(v).subrange(4 * i, 4 * i + 4) == u32_le(v[i]));
        lemma_u32_at(s, off + 4 * i, v[i]);
    }
    assert(u32s_at(s, off, v.len()) =~= v);
}

/// Where the parts of a concatenation stand in it.
pub proof fn lemma_parts(a: Seq<u8>, b: Seq<u8>, c: Seq<u8>, d: Seq<u8>, e: Seq<u8>)
    ensures
        ({
            let s = a + b + c + d + e;
            let (i, j, k) = (a.len() as int, (a.len() + b.len()) as int, (a.len() + b.len() + c.len()) as int);
            &&& s.len() == a.len() + b.len() + c.len() + d.len() + e.len()
            &&& s == a + (b + c + d + e)
            &&& s.subrange(i, j) == b
            &&& s.subrange(j, k) == c
            &&& s.subrange(k, k + d.len()) == d
        }),
{
    let s = a + b + c + d + e;
    assert(s =~= a + (b + c + d + e));
    let (i, j, k) = (a.len() as int, (a.len() + b.len()) as int, (a.len() + b.len() + c.len()) as int);
    assert(s.subrange(i, j) =~= b);
    assert(s.subrange(j, k) =~= c);
    assert(s.subrange(k, k + d.len()) =~= d);
}

} // verus!
