//! Minimal RIFF/WAVE parsing and forward-loop injection.
//!
//! A sample plays once unless its file carries a `smpl` chunk with a loop. Music
//! gets one appended that loops the whole sample forever.

use crate::bytes::{
    lemma_u32_at, lemma_u32s_le, push_bytes, push_u32, push_u32s, read_u16, read_u32, u16_at, u32_at, u32_le, u32s_le,
};
use vstd::prelude::*;

verus! {

/// What matters of a WAVE file: the format and the size of the samples.
#[derive(Debug, Clone, Copy, PartialEq, Eq, Structural)]
pub struct WavInfo {
    pub channels: u16,
    pub bits_per_sample: u16,
    /// Sample rate in Hz.
    pub sample_rate: u32,
    /// Bytes of sample data.
    pub data_len: u32,
}

/// Number of sample frames; a frame is one sample of every channel.
pub open spec fn frame_count(info: WavInfo) -> int {
    let bytes_per_frame = (info.channels * info.bits_per_sample) / 8;
    if bytes_per_frame == 0 {
        0
    } else {
        info.data_len as int / bytes_per_frame
    }
}

impl WavInfo {
    /// Number of sample frames; a frame is one sample of every channel.
    pub fn frames(&self) -> (r: u32)
        ensures
            r == frame_count(*self),
    {
        assert(self.channels * self.bits_per_sample <= 0xffff * 0xffff) by (nonlinear_arith)
            requires
                self.channels <= 0xffff,
                self.bits_per_sample <= 0xffff,
        ;
        assert(0 <= self.channels * self.bits_per_sample) by (nonlinear_arith);
        let bytes_per_frame: u32 = self.channels as u32 * self.bits_per_sample as u32 / 8;
        if bytes_per_frame == 0 {
            0
        } else {
            self.data_len / bytes_per_frame
        }
    }
}

/// One chunk of a file: its name, where its body starts, and the body's size.
#[verifier::ext_equal]
pub struct Chunk {
    pub id: Seq<u8>,
    pub body: int,
    pub size: u32,
}

/// The chunk whose header stands at `pos`.
pub open spec fn chunk_at(s: Seq<u8>, pos: int) -> Chunk {
    Chunk { id: s.subrange(pos, pos + 4), body: pos + 8, size: u32_at(s, pos + 4) }
}

/// Where the chunk behind the one at `pos` starts; a body of odd size is padded.
pub open spec fn next_chunk(s: Seq<u8>, pos: int) -> int {
    pos + 8 + u32_at(s, pos + 4) + u32_at(s, pos + 4) % 2
}

/// A bound on how far a walk from `pos` can go.
pub open spec fn bytes_left(s: Seq<u8>, pos: int) -> int {
    if pos > s.len() {
        0
    } else {
        s.len() - pos + 1
    }
}

/// The chunks from `pos` on, as far as there are whole headers.
pub open spec fn chunks(s: Seq<u8>, pos: int) -> Seq<Chunk>
    decreases bytes_left(s, pos),
{
    if pos < 0 || pos + 8 > s.len() {
        Seq::empty()
    } else {
        seq![chunk_at(s, pos)] + chunks(s, next_chunk(s, pos))
    }
}

/// Where the walk over the chunks from `pos` on ends.
pub open spec fn chunks_end(s: Seq<u8>, pos: int) -> int
    decreases bytes_left(s, pos),
{
    if pos < 0 || pos + 8 > s.len() {
        pos
    } else {
        chunks_end(s, next_chunk(s, pos))
    }
}

/// `"RIFF"`.
pub open spec fn riff_id() -> Seq<u8> {
    seq![0x52u8, 0x49, 0x46, 0x46]
}

/// `"WAVE"`.
pub open spec fn wave_id() -> Seq<u8> {
    seq![0x57u8, 0x41, 0x56, 0x45]
}

/// `"fmt "`.
pub open spec fn fmt_id() -> Seq<u8> {
    seq![0x66u8, 0x6d, 0x74, 0x20]
}

/// `"data"`.
pub open spec fn data_id() -> Seq<u8> {
    seq![0x64u8, 0x61, 0x74, 0x61]
}

/// `"smpl"`.
pub open spec fn smpl_id() -> Seq<u8> {
    seq![0x73u8, 0x6d, 0x70, 0x6c]
}

/// The last chunk with this name.
pub open spec fn last_chunk(v: Seq<Chunk>, id: Seq<u8>) -> Option<Chunk>
    decreases v.len(),
{
    if v.len() == 0 {
        None
    } else if v.last().id == id {
        Some(v.last())
    } else {
        last_chunk(v.drop_last(), id)
    }
}

/// Is this the start of a RIFF/WAVE file?
pub open spec fn is_wave(s: Seq<u8>) -> bool {
    s.len() >= 12 && s.subrange(0, 4) == riff_id() && s.subrange(8, 12) == wave_id()
}

/// The last format chunk, if all that is read of it is there.
pub open spec fn format_chunk(s: Seq<u8>) -> Option<Chunk> {
    match last_chunk(chunks(s, 12), fmt_id()) {
        Some(c) => if c.body + 16 <= s.len() {
            Some(c)
        } else {
            None
        },
        None => None,
    }
}

/// What a file says of its samples, or why it is not usable.
pub open spec fn wav_info(s: Seq<u8>) -> Result<WavInfo, Seq<char>> {
    if !is_wave(s) {
        Err("not a RIFF/WAVE file"@)
    } else {
        match format_chunk(s) {
            None => Err("missing fmt chunk"@),
            Some(f) => match last_chunk(chunks(s, 12), data_id()) {
                None => Err("missing data chunk"@),
                Some(d) => Ok(
                    WavInfo {
                        channels: u16_at(s, f.body + 2),
                        bits_per_sample: u16_at(s, f.body + 14),
                        sample_rate: u32_at(s, f.body + 4),
                        data_len: d.size,
                    },
                ),
            },
        }
    }
}

/// Does a `smpl` chunk stand in the file?
pub open spec fn holds_smpl(s: Seq<u8>) -> bool {
    last_chunk(chunks(s, 12), smpl_id()) is Some
}

/// Do these four bytes stand at `pos`?
fn id_is(bytes: &[u8], pos: usize, a: u8, b: u8, c: u8, d: u8) -> (r: bool)
    requires
        pos + 4 <= bytes.len(),
    ensures
        r == (bytes@.subrange(pos as int, pos + 4) == seq![a, b, c, d]),
{
    let r = bytes[pos] == a && bytes[pos + 1] == b && bytes[pos + 2] == c && bytes[pos + 3] == d;
    proof {
        let s = bytes@.subrange(pos as int, pos + 4);
        if r {
            assert(s =~= seq![a, b, c, d]);
        }
        if s == seq![a, b, c, d] {
            assert(s[0] == a && s[1] == b && s[2] == c && s[3] == d);
        }
    }
    r
}

/// Step from the chunk at `pos` to the next; `None` where it lies behind the end.
fn step(bytes: &[u8], pos: usize) -> (r: Option<usize>)
    requires
        pos + 8 <= bytes.len(),
    ensures
        r matches Some(n) ==> n == next_chunk(bytes@, pos as int) && n <= bytes.len(),
        r is None ==> next_chunk(bytes@, pos as int) > bytes@.len(),
{
    let size: u32 = read_u32(bytes, pos + 4);
    let room: usize = bytes.len() - (pos + 8);
    let skip: u64 = size as u64 + (size % 2) as u64;
    if skip > room as u64 {
        None
    } else {
        Some(pos + 8 + skip as usize)
    }
}

/// Walking on from `pos` after the chunks before it.
spec fn walked(s: Seq<u8>, done: Seq<Chunk>, pos: int) -> bool {
    pos >= 12 && done + chunks(s, pos) == chunks(s, 12)
}

proof fn lemma_walk_step(s: Seq<u8>, done: Seq<Chunk>, pos: int)
    requires
        walked(s, done, pos),
        pos + 8 <= s.len(),
    ensures
        walked(s, done.push(chunk_at(s, pos)), next_chunk(s, pos)),
{
    assert(done + chunks(s, pos) =~= done.push(chunk_at(s, pos)) + chunks(s, next_chunk(s, pos)));
}

/// The last chunk of a list with one more chunk.
proof fn lemma_last_push(v: Seq<Chunk>, c: Chunk, id: Seq<u8>)
    ensures
        last_chunk(v.push(c), id) == if c.id == id {
            Some(c)
        } else {
            last_chunk(v, id)
        },
{
    assert(v.push(c).drop_last() =~= v);
}

/// Parse the format and data chunks of a RIFF/WAVE file.
pub fn parse(bytes: &[u8]) -> (r: Result<WavInfo, String>)
    ensures
        r matches Ok(info) ==> wav_info(bytes@) == Ok::<WavInfo, Seq<char>>(info),
        r matches Err(e) ==> wav_info(bytes@) == Err::<WavInfo, Seq<char>>(e@),
{
    let ghost s = bytes@;
    if bytes.len() < 12 || !id_is(bytes, 0, 0x52, 0x49, 0x46, 0x46) || !id_is(
        bytes,
        8,
        0x57,
        0x41,
        0x56,
        0x45,
    ) {
        return Err("not a RIFF/WAVE file".to_owned());
    }
    let mut fmt: Option<usize> = None;
    let mut data: Option<u32> = None;
    let ghost mut done = Seq::<Chunk>::empty();
    let mut pos: usize = 12;
    let mut more: bool = true;
    assert(done + chunks(s, 12) =~= chunks(s, 12));
    while more && bytes.len() - pos >= 8
        invariant
            s == bytes@,
            pos <= s.len(),
            is_wave(s),
            more ==> walked(s, done, pos as int),
            !more ==> done == chunks(s, 12),
            fmt matches Some(b) ==> last_chunk(done, fmt_id()) matches Some(c) && c.body == b && b
                <= s.len(),
            fmt is None ==> last_chunk(done, fmt_id()) is None,
            data matches Some(n) ==> last_chunk(done, data_id()) matches Some(c) && c.size == n,
            data is None ==> last_chunk(done, data_id()) is None,
        decreases s.len() - pos, if more { 1int } else { 0int },
    {
        let ghost c = chunk_at(s, pos as int);
        let is_fmt: bool = id_is(bytes, pos, 0x66, 0x6d, 0x74, 0x20);
        let is_data: bool = id_is(bytes, pos, 0x64, 0x61, 0x74, 0x61);
        proof {
            lemma_last_push(done, c, fmt_id());
            lemma_last_push(done, c, data_id());
            lemma_walk_step(s, done, pos as int);
            assert(fmt_id()[0] != data_id()[0]);
            done = done.push(c);
        }
        if is_fmt {
            fmt = Some(pos + 8);
        } else if is_data {
            data = Some(read_u32(bytes, pos + 4));
        }
        match step(bytes, pos) {
            Some(n) => {
                pos = n;
            },
            None => {
                more = false;
                assert(done + chunks(s, next_chunk(s, pos as int)) =~= done);
            },
        }
    }
    assert(done =~= chunks(s, 12)) by {
        if more {
            assert(chunks(s, pos as int) =~= Seq::empty());
            assert(done + chunks(s, pos as int) =~= done);
        }
    }
    let f: usize = match fmt {
        Some(b) => b,
        None => return Err("missing fmt chunk".to_owned()),
    };
    if bytes.len() - f < 16 {
        return Err("missing fmt chunk".to_owned());
    }
    match data {
        Some(data_len) => Ok(
            WavInfo {
                channels: read_u16(bytes, f + 2),
                bits_per_sample: read_u16(bytes, f + 14),
                sample_rate: read_u32(bytes, f + 4),
                data_len,
            },
        ),
        None => Err("missing data chunk".to_owned()),
    }
}

/// A chunk in the list is found.
proof fn lemma_last_found(v: Seq<Chunk>, i: int, id: Seq<u8>)
    requires
        0 <= i < v.len(),
        v[i].id == id,
    ensures
        last_chunk(v, id) is Some,
    decreases v.len(),
{
    if v.last().id != id {
        lemma_last_found(v.drop_last(), i, id);
    }
}

/// Does the file hold a `smpl` chunk?
pub fn has_smpl(bytes: &[u8]) -> (r: bool)
    ensures
        r == holds_smpl(bytes@),
{
    let ghost s = bytes@;
    if bytes.len() < 12 {
        return false;
    }
    let ghost mut done = Seq::<Chunk>::empty();
    let mut pos: usize = 12;
    assert(done + chunks(s, 12) =~= chunks(s, 12));
    while bytes.len() - pos >= 8
        invariant
            s == bytes@,
            pos <= s.len(),
            walked(s, done, pos as int),
            last_chunk(done, smpl_id()) is None,
        decreases s.len() - pos,
    {
        let ghost c = chunk_at(s, pos as int);
        proof {
            lemma_last_push(done, c, smpl_id());
            lemma_walk_step(s, done, pos as int);
        }
        if id_is(bytes, pos, 0x73, 0x6d, 0x70, 0x6c) {
            proof {
                let all = chunks(s, 12);
                let k = done.len() as int;
                assert(all[k] == (done.push(c) + chunks(s, next_chunk(s, pos as int)))[k]);
                lemma_last_found(all, k, smpl_id());
            }
            return true;
        }
        proof {
            done = done.push(c);
        }
        match step(bytes, pos) {
            Some(n) => {
                pos = n;
            },
            None => {
                assert(done + chunks(s, next_chunk(s, pos as int)) =~= done);
                return false;
            },
        }
    }
    assert(done + chunks(s, pos as int) =~= done);
    false
}

/// Index of the last frame; zero where there are none.
pub open spec fn loop_end(info: WavInfo) -> u32 {
    if frame_count(info) == 0 {
        0
    } else {
        (frame_count(info) - 1) as u32
    }
}

/// Length of a sample in nanoseconds; zero where the rate is.
pub open spec fn sample_period(info: WavInfo) -> u32 {
    if info.sample_rate == 0 {
        0
    } else {
        1_000_000_000u32 / info.sample_rate
    }
}

/// The body of a `smpl` chunk with one endless forward loop over all frames: nine
/// words about the sampler, with the sample period, the unity note and the loop
/// count, then the loop's id, kind, start, end, fraction and play count.
pub open spec fn smpl_words(info: WavInfo) -> Seq<u32> {
    seq![
        0u32,
        0,
        sample_period(info),
        60,
        0,
        0,
        0,
        1,
        0,
        0,
        0,
        0,
        loop_end(info),
        0,
        0,
    ]
}

/// The `smpl` chunk of a file.
pub open spec fn smpl_bytes(info: WavInfo) -> Seq<u8> {
    smpl_id() + u32_le(60) + u32s_le(smpl_words(info))
}

/// Build a `smpl` chunk with one forward loop over the whole sample.
pub fn smpl_chunk(info: &WavInfo) -> (r: Vec<u8>)
    ensures
        r@ == smpl_bytes(*info),
        r@.len() == 68,
{
    let frames: u32 = info.frames();
    let end: u32 = if frames == 0 {
        0
    } else {
        frames - 1
    };
    let period: u32 = if info.sample_rate == 0 {
        0
    } else {
        1_000_000_000u32 / info.sample_rate
    };
    let mut words: Vec<u32> = Vec::new();
    words.push(0);
    words.push(0);
    words.push(period);
    words.push(60);
    words.push(0);
    words.push(0);
    words.push(0);
    words.push(1);
    words.push(0);
    words.push(0);
    words.push(0);
    words.push(0);
    words.push(end);
    words.push(0);
    words.push(0);
    assert(words@ =~= smpl_words(*info));
    let mut out: Vec<u8> = Vec::new();
    out.push(0x73);
    out.push(0x6d);
    out.push(0x70);
    out.push(0x6c);
    assert(out@ =~= smpl_id());
    push_u32(&mut out, 60);
    push_u32s(&mut out, words.as_slice());
    proof {
        lemma_u32s_le(words@);
    }
    out
}

/// The file with a `smpl` chunk appended at an even offset and the size in its
/// header set to what follows it.
pub open spec fn looped(s: Seq<u8>, info: WavInfo) -> Seq<u8> {
    let body = padded(s) + smpl_bytes(info);
    s.subrange(0, 4) + u32_le((body.len() - 8) as u32) + body.skip(8)
}

/// The bytes, with a zero behind them if they are odd in number.
pub open spec fn padded(s: Seq<u8>) -> Seq<u8> {
    if s.len() % 2 == 1 {
        s.push(0)
    } else {
        s
    }
}

/// The file with a loop: as it is if it holds one, else with one appended.
pub open spec fn injected(s: Seq<u8>) -> Seq<u8> {
    if holds_smpl(s) {
        s
    } else {
        looped(s, wav_info(s)->Ok_0)
    }
}

/// Append a forward-loop chunk, so that the sample plays forever. A file that has
/// such a chunk stays as it is.
pub fn inject_forward_loop(bytes: &[u8]) -> (r: Result<Vec<u8>, String>)
    ensures
        r matches Ok(out) ==> {
            &&& wav_info(bytes@) is Ok
            &&& out@ == injected(bytes@)
        },
        r matches Err(e) ==> wav_info(bytes@) == Err::<WavInfo, Seq<char>>(e@),
{
    let info: WavInfo = match parse(bytes) {
        Ok(info) => info,
        Err(e) => return Err(e),
    };
    let mut body: Vec<u8> = Vec::new();
    push_bytes(&mut body, bytes);
    assert(body@ =~= bytes@);
    if has_smpl(bytes) {
        return Ok(body);
    }
    if body.len() % 2 == 1 {
        body.push(0);
    }
    assert(body@ =~= padded(bytes@));
    let chunk: Vec<u8> = smpl_chunk(&info);
    push_bytes(&mut body, chunk.as_slice());
    let size: u32 = (body.len() - 8) as u32;
    let mut out: Vec<u8> = Vec::new();
    push_bytes(&mut out, crate::bytes::copy_range(body.as_slice(), 0, 4).as_slice());
    push_u32(&mut out, size);
    push_bytes(&mut out, crate::bytes::copy_range(body.as_slice(), 8, body.len()).as_slice());
    proof {
        let b = padded(bytes@) + smpl_bytes(info);
        assert(b.subrange(0, 4) =~= bytes@.subrange(0, 4));
        assert(b.subrange(8, b.len() as int) =~= b.skip(8));
        assert(out@ =~= looped(bytes@, info));
    }
    Ok(out)
}

/// The chunks of the file reach exactly to its end, not counting padding.
pub open spec fn chunks_fill(s: Seq<u8>) -> bool {
    chunks_end(s, 12) == s.len() + s.len() % 2
}

/// Behind its header a looped file starts with the bytes of the file it was made from.
proof fn lemma_looped_prefix(s: Seq<u8>, info: WavInfo, i: int)
    requires
        s.len() >= 12,
        8 <= i < s.len(),
    ensures
        looped(s, info)[i] == s[i],
{
    let body = padded(s) + smpl_bytes(info);
    let head = s.subrange(0, 4) + u32_le((body.len() - 8) as u32);
    assert(looped(s, info)[i] == body.skip(8)[i - 8]);
}

proof fn lemma_looped_len(s: Seq<u8>, info: WavInfo)
    requires
        s.len() >= 12,
    ensures
        looped(s, info).len() == padded(s).len() + 68,
        looped(s, info).subrange(padded(s).len() as int, padded(s).len() + 68int) == smpl_bytes(info),
{
    lemma_u32s_le(smpl_words(info));
    let body = padded(s) + smpl_bytes(info);
    let out = looped(s, info);
    let n = padded(s).len() as int;
    assert forall|i: int| 0 <= i < 68 implies out.subrange(n, n + 68)[i] == smpl_bytes(info)[i] by {
        assert(out[n + i] == body.skip(8)[n + i - 8]);
        assert(body[n + i] == smpl_bytes(info)[i]);
    }
    assert(out.subrange(n, n + 68) =~= smpl_bytes(info));
}

/// The chunks of a looped file are those of the file it was made from and the loop's.
proof fn lemma_looped_chunks(s: Seq<u8>, info: WavInfo, pos: int)
    requires
        s.len() >= 12,
        pos >= 12,
        pos % 2 == 0,
        chunks_end(s, pos) == padded(s).len(),
    ensures
        chunks(looped(s, info), pos) == chunks(s, pos).push(
            Chunk { id: smpl_id(), body: padded(s).len() + 8int, size: 60 },
        ),
    decreases bytes_left(s, pos),
{
    let out = looped(s, info);
    let n = padded(s).len() as int;
    lemma_looped_len(s, info);
    if pos + 8 <= s.len() {
        assert forall|i: int| pos <= i < pos + 8 implies #[trigger] out[i] == s[i] by {
            lemma_looped_prefix(s, info, i);
        }
        assert(out.subrange(pos, pos + 4) =~= s.subrange(pos, pos + 4));
        assert(u32_at(out, pos + 4) == u32_at(s, pos + 4));
        assert(next_chunk(s, pos) % 2 == 0);
        lemma_looped_chunks(s, info, next_chunk(s, pos));
        let c = Chunk { id: smpl_id(), body: padded(s).len() + 8int, size: 60 };
        assert(seq![chunk_at(s, pos)] + chunks(s, next_chunk(s, pos)).push(c) =~= chunks(
            s,
            pos,
        ).push(c));
    } else {
        let part = out.subrange(n, n + 68);
        assert(out.subrange(n, n + 4) =~= smpl_id()) by {
            assert forall|i: int| 0 <= i < 4 implies out.subrange(n, n + 4)[i] == smpl_id()[i] by {
                assert(part[i] == smpl_bytes(info)[i]);
            }
        }
        assert(out.subrange(n + 4, n + 8) =~= u32_le(60)) by {
            assert forall|i: int| 0 <= i < 4 implies out.subrange(n + 4, n + 8)[i] == u32_le(60)[i] by {
                assert(part[4 + i] == smpl_bytes(info)[4 + i]);
            }
        }
        lemma_u32_at(out, n + 4, 60);
        assert(next_chunk(out, n) == n + 68);
        assert(chunks(out, n + 68) =~= Seq::empty());
        assert(chunks(s, pos) =~= Seq::empty());
        assert(chunks(out, n) =~= seq![chunk_at(out, n)]);
        assert(chunks(out, n) =~= chunks(s, pos).push(
            Chunk { id: smpl_id(), body: n + 8, size: 60 },
        ));
    }
}

/// The last chunk of a walk has its header inside the file.
proof fn lemma_last_chunk_body(s: Seq<u8>, pos: int, id: Seq<u8>)
    requires
        pos >= 12,
    ensures
        last_chunk(chunks(s, pos), id) matches Some(c) ==> c.body >= 20 && c.body <= s.len(),
    decreases bytes_left(s, pos),
{
    let v = chunks(s, pos);
    lemma_all_bodies(s, pos);
    lemma_last_is_member(v, id);
}

proof fn lemma_last_is_member(v: Seq<Chunk>, id: Seq<u8>)
    ensures
        last_chunk(v, id) matches Some(c) ==> exists|i: int| 0 <= i < v.len() && v[i] == c,
    decreases v.len(),
{
    if v.len() > 0 && v.last().id != id {
        lemma_last_is_member(v.drop_last(), id);
        if let Some(c) = last_chunk(v, id) {
            let i = choose|i: int| 0 <= i < v.drop_last().len() && v.drop_last()[i] == c;
            assert(v[i] == c);
        }
    } else if v.len() > 0 {
        assert(v[v.len() - 1] == v.last());
    }
}

proof fn lemma_all_bodies(s: Seq<u8>, pos: int)
    requires
        pos >= 12,
    ensures
        forall|i: int|
            0 <= i < chunks(s, pos).len() ==> 20 <= (#[trigger] chunks(s, pos)[i]).body <= s.len(),
    decreases bytes_left(s, pos),
{
    if pos + 8 <= s.len() {
        lemma_all_bodies(s, next_chunk(s, pos));
        let rest = chunks(s, next_chunk(s, pos));
        assert forall|i: int| 0 <= i < chunks(s, pos).len() implies 20 <= (#[trigger] chunks(
            s,
            pos,
        )[i]).body <= s.len() by {
            if i > 0 {
                assert(chunks(s, pos)[i] == rest[i - 1]);
            }
        }
    }
}

/// Injecting a loop into a well-formed file gives one that holds a loop, says the
/// same of its samples, and has the right size in its header, where the size fits.
pub proof fn law_injection_keeps_the_samples(s: Seq<u8>)
    requires
        wav_info(s) is Ok,
        chunks_fill(s),
    ensures
        ({
            let out = looped(s, wav_info(s)->Ok_0);
            &&& holds_smpl(out)
            &&& wav_info(out) == wav_info(s)
            &&& out.len() - 8 <= u32::MAX ==> u32_at(out, 4) == out.len() - 8
        }),
{
    let info = wav_info(s)->Ok_0;
    let out = looped(s, info);
    lemma_looped_file_is_wave(s);
    lemma_looped_len(s, info);
    let body = padded(s) + smpl_bytes(info);
    assert(out.subrange(4, 8) =~= u32_le((body.len() - 8) as u32));
    lemma_u32_at(out, 4, (body.len() - 8) as u32);
}

/// The file with one more chunk right behind its header.
pub open spec fn with_chunk(s: Seq<u8>, id: Seq<u8>, body: Seq<u8>, pad: Seq<u8>) -> Seq<u8> {
    s.take(12) + (id + u32_le(body.len() as u32) + body + pad) + s.skip(12)
}

/// A chunk moved by `d` bytes.
spec fn moved(c: Chunk, d: int) -> Chunk {
    Chunk { id: c.id, body: c.body + d, size: c.size }
}

/// Where one file holds the other's bytes moved by `d`, it holds its chunks moved.
proof fn lemma_moved_chunks(s: Seq<u8>, t: Seq<u8>, d: int, pos: int)
    requires
        pos >= 12,
        d >= 0,
        t.len() == s.len() + d,
        forall|i: int| 12 <= i < s.len() ==> t[#[trigger] (i + d)] == s[i],
    ensures
        chunks(t, pos + d) == chunks(s, pos).map_values(|c: Chunk| moved(c, d)),
    decreases bytes_left(s, pos),
{
    let shift = |c: Chunk| moved(c, d);
    if pos + 8 <= s.len() {
        assert(t[pos + d] == s[pos] && t[pos + 1 + d] == s[pos + 1]);
        assert(t[pos + 2 + d] == s[pos + 2] && t[pos + 3 + d] == s[pos + 3]);
        assert(t[pos + 4 + d] == s[pos + 4] && t[pos + 5 + d] == s[pos + 5]);
        assert(t[pos + 6 + d] == s[pos + 6] && t[pos + 7 + d] == s[pos + 7]);
        assert(t.subrange(pos + d, pos + d + 4) =~= s.subrange(pos, pos + 4));
        assert(u32_at(t, pos + d + 4) == u32_at(s, pos + 4));
        assert(next_chunk(t, pos + d) == next_chunk(s, pos) + d);
        lemma_moved_chunks(s, t, d, next_chunk(s, pos));
        let rest = chunks(s, next_chunk(s, pos));
        assert(chunk_at(t, pos + d) == moved(chunk_at(s, pos), d));
        assert(seq![moved(chunk_at(s, pos), d)] + rest.map_values(shift) =~= (seq![
            chunk_at(s, pos),
        ] + rest).map_values(shift));
    } else {
        assert(chunks(t, pos + d) =~= chunks(s, pos).map_values(shift));
    }
}

/// The last chunk of a name, in a list with moved chunks behind one of another name.
proof fn lemma_last_moved(c: Chunk, v: Seq<Chunk>, d: int, id: Seq<u8>)
    requires
        c.id != id,
    ensures
        last_chunk(seq![c] + v.map_values(|c: Chunk| moved(c, d)), id) == match last_chunk(v, id) {
            Some(x) => Some(moved(x, d)),
            None => None,
        },
    decreases v.len(),
{
    let shift = |c: Chunk| moved(c, d);
    let all = seq![c] + v.map_values(shift);
    if v.len() == 0 {
        assert(all.drop_last() =~= Seq::empty());
        assert(all.last() == c);
        assert(last_chunk(all.drop_last(), id) is None);
    } else {
        assert(all.drop_last() =~= seq![c] + v.drop_last().map_values(shift));
        assert(all.last() == moved(v.last(), d));
        lemma_last_moved(c, v.drop_last(), d, id);
    }
}

/// A chunk of another name than `fmt ` and `data`, put behind the header, changes
/// nothing of what a file says of its samples. One of another name than `smpl` does
/// not change whether the file holds a loop.
pub proof fn law_foreign_chunk_is_skipped(
    s: Seq<u8>,
    id: Seq<u8>,
    body: Seq<u8>,
    pad: Seq<u8>,
)
    requires
        s.len() >= 12,
        id.len() == 4,
        body.len() <= u32::MAX,
        pad.len() == body.len() % 2,
    ensures
        id != fmt_id() && id != data_id() ==> wav_info(with_chunk(s, id, body, pad)) == wav_info(s),
        id != smpl_id() ==> holds_smpl(with_chunk(s, id, body, pad)) == holds_smpl(s),
{
    let t = with_chunk(s, id, body, pad);
    let n = u32_le(body.len() as u32);
    let mid = id + n + body + pad;
    let d = mid.len() as int;
    assert(d == 8 + body.len() + body.len() % 2);
    assert(t.subrange(12, 16) =~= id);
    assert(t.subrange(16, 20) =~= n);
    lemma_u32_at(t, 16, body.len() as u32);
    let c = chunk_at(t, 12);
    assert(c.id == id);
    assert(next_chunk(t, 12) == 12 + d);
    assert forall|i: int| 12 <= i < s.len() implies t[#[trigger] (i + d)] == s[i] by {
        assert(s.skip(12)[i - 12] == s[i]);
    }
    lemma_moved_chunks(s, t, d, 12);
    let v = chunks(s, 12);
    assert(chunks(t, 12) == seq![c] + v.map_values(|c: Chunk| moved(c, d)));
    if id != smpl_id() {
        lemma_last_moved(c, v, d, smpl_id());
    }
    if id != fmt_id() && id != data_id() {
        lemma_last_moved(c, v, d, fmt_id());
        lemma_last_moved(c, v, d, data_id());
        lemma_last_chunk_body(s, 12, fmt_id());
        assert(t.subrange(0, 4) =~= s.subrange(0, 4));
        assert(t.subrange(8, 12) =~= s.subrange(8, 12));
        if let Some(f) = format_chunk(s) {
            let b = f.body;
            assert(t[b + 2 + d] == s[b + 2] && t[b + 3 + d] == s[b + 3]);
            assert(t[b + 4 + d] == s[b + 4] && t[b + 5 + d] == s[b + 5]);
            assert(t[b + 6 + d] == s[b + 6] && t[b + 7 + d] == s[b + 7]);
            assert(t[b + 14 + d] == s[b + 14] && t[b + 15 + d] == s[b + 15]);
            assert(u16_at(t, b + d + 2) == u16_at(s, b + 2));
            assert(u16_at(t, b + d + 14) == u16_at(s, b + 14));
            assert(u32_at(t, b + d + 4) == u32_at(s, b + 4));
        }
    }
}

/// Injecting a loop twice is injecting it once.
pub proof fn law_injection_is_idempotent(s: Seq<u8>)
    requires
        wav_info(s) is Ok,
        holds_smpl(s) || chunks_fill(s),
    ensures
        wav_info(injected(s)) is Ok,
        injected(injected(s)) == injected(s),
{
    if !holds_smpl(s) {
        lemma_looped_file_is_wave(s);
    }
}

/// A looped file parses as the file it was made from does, and holds a loop.
proof fn lemma_looped_file_is_wave(s: Seq<u8>)
    requires
        wav_info(s) is Ok,
        chunks_fill(s),
    ensures
        ({
            let out = looped(s, wav_info(s)->Ok_0);
            holds_smpl(out) && wav_info(out) == wav_info(s)
        }),
{
    let info = wav_info(s)->Ok_0;
    let out = looped(s, info);
    let c = Chunk { id: smpl_id(), body: padded(s).len() + 8int, size: 60 };
    lemma_looped_len(s, info);
    lemma_looped_chunks(s, info, 12);
    lemma_last_push(chunks(s, 12), c, smpl_id());
    lemma_last_push(chunks(s, 12), c, fmt_id());
    lemma_last_push(chunks(s, 12), c, data_id());
    assert(smpl_id()[0] != fmt_id()[0]);
    assert(smpl_id()[0] != data_id()[0]);
    assert(out.subrange(0, 4) =~= s.subrange(0, 4));
    assert(out.subrange(8, 12) =~= s.subrange(8, 12)) by {
        assert forall|i: int| 8 <= i < 12 implies #[trigger] out[i] == s[i] by {
            lemma_looped_prefix(s, info, i);
        }
    }
    lemma_last_chunk_body(s, 12, fmt_id());
    let f = format_chunk(s)->0;
    assert forall|i: int| f.body <= i < f.body + 16 implies #[trigger] out[i] == s[i] by {
        lemma_looped_prefix(s, info, i);
    }
    assert(u16_at(out, f.body + 2) == u16_at(s, f.body + 2));
    assert(u16_at(out, f.body + 14) == u16_at(s, f.body + 14));
    assert(u32_at(out, f.body + 4) == u32_at(s, f.body + 4));
}

} // verus!
