//! Decoding the frame-time record.

use crate::bytes::{
    lemma_u32_at, lemma_u32s_at, lemma_u32s_le, read_u32, read_u32s, read_u64, u32_at, u32_le,
    u32s_at, u32s_le, u64_at,
};
use crate::diagnostics::{ring_samples, PerfBlob, PERF_MAGIC, PERF_RING_LEN, PERF_VERSION};
use crate::strings::{decimal, digit_char, push_text, to_decimal};
use vstd::prelude::*;

verus! {

/// Header and ring, in bytes.
pub const PERF_BLOB_SIZE: usize = 1048;

/// The samples that are no placeholders.
pub open spec fn nonzero(s: Seq<u32>) -> Seq<u32>
    decreases s.len(),
{
    if s.len() == 0 {
        s
    } else if s.last() == 0 {
        nonzero(s.drop_last())
    } else {
        nonzero(s.drop_last()).push(s.last())
    }
}

/// Two lower-case hexadecimal digits.
pub open spec fn two_digits(b: u8) -> Seq<char> {
    seq![digit_char(b as int / 16), digit_char(b as int % 16)]
}

/// Four bytes as a list of hexadecimal pairs.
pub open spec fn byte_list(s: Seq<u8>) -> Seq<char> {
    "["@ + two_digits(s[0]) + ", "@ + two_digits(s[1]) + ", "@ + two_digits(s[2]) + ", "@
        + two_digits(s[3]) + "]"@
}

/// What is wrong with the record, if anything.
pub open spec fn blob_error(s: Seq<u8>) -> Option<Seq<char>> {
    if s.len() < PERF_BLOB_SIZE {
        Some("short blob: got "@ + decimal(s.len()) + " bytes, expected 1048"@)
    } else if s.take(4) != PERF_MAGIC@ {
        Some("bad magic: "@ + byte_list(s))
    } else if u32_at(s, 4) != PERF_VERSION {
        Some(
            "unsupported PerfBlob version "@ + decimal(u32_at(s, 4) as nat)
                + " (this tool knows 1)"@,
        )
    } else if u32_at(s, 12) != PERF_RING_LEN {
        Some(
            "ring_len mismatch: blob says "@ + decimal(u32_at(s, 12) as nat)
                + ", this tool was built for 256"@,
        )
    } else {
        None
    }
}

/// The samples of a record without fault, oldest first.
pub open spec fn blob_samples(s: Seq<u8>) -> Seq<u32> {
    nonzero(ring_samples(u32s_at(s, 24, 256), u32_at(s, 8) as int, u64_at(s, 16) as int))
}

/// A full ring's next slot lies inside the ring.
pub open spec fn head_in_ring(s: Seq<u8>) -> bool {
    blob_error(s) is None && u64_at(s, 16) >= PERF_RING_LEN ==> u32_at(s, 8) <= PERF_RING_LEN
}

/// The decoded record.
#[derive(Debug, Clone)]
pub struct Blob {
    /// The samples, oldest first.
    pub samples: Vec<u32>,
}

fn push_two_digits(s: &mut String, b: u8)
    ensures
        final(s)@ == old(s)@ + two_digits(b),
{
    let hi: u8 = b / 16;
    let lo: u8 = b % 16;
    s.push(if hi < 10 {
        (48 + hi) as char
    } else {
        (87 + hi) as char
    });
    s.push(if lo < 10 {
        (48 + lo) as char
    } else {
        (87 + lo) as char
    });
    assert(s@ =~= old(s)@ + two_digits(b));
}

/// `head` and `number` and `tail`.
fn message(head: &str, number: u64, tail: &str) -> (r: String)
    ensures
        r@ == head@ + decimal(number as nat) + tail@,
{
    let mut out: String = String::new();
    push_text(&mut out, head);
    assert(out@ =~= head@);
    push_text(&mut out, &to_decimal(number));
    push_text(&mut out, tail);
    out
}

/// Does a full ring's next slot lie inside the ring?
pub fn is_head_in_ring(bytes: &[u8]) -> (r: bool)
    ensures
        r == head_in_ring(bytes@),
{
    if bytes.len() < PERF_BLOB_SIZE || !has_magic(bytes) || read_u32(bytes, 4) != PERF_VERSION
        || read_u32(bytes, 12) != 256 {
        return true;
    }
    read_u64(bytes, 16) < 256 || read_u32(bytes, 8) <= 256
}

fn has_magic(bytes: &[u8]) -> (r: bool)
    requires
        bytes.len() >= 4,
    ensures
        r == (bytes@.take(4) == PERF_MAGIC@),
{
    let r: bool = bytes[0] == 66 && bytes[1] == 86 && bytes[2] == 68 && bytes[3] == 83;
    proof {
        let t = bytes@.take(4);
        assert(PERF_MAGIC@ =~= seq![66u8, 86, 68, 83]);
        if r {
            assert(t =~= PERF_MAGIC@);
        } else {
            assert(t[0] == bytes@[0] && t[1] == bytes@[1] && t[2] == bytes@[2] && t[3] == bytes@[3]);
        }
    }
    r
}

impl Blob {
    /// Decode a record: check its header and put its samples in order. What lies
    /// behind the record is not looked at.
    pub fn decode(bytes: &[u8]) -> (r: Result<Blob, String>)
        requires
            head_in_ring(bytes@),
        ensures
            match r {
                Ok(b) => blob_error(bytes@) is None && b.samples@ == blob_samples(bytes@),
                Err(e) => blob_error(bytes@) == Some(e@),
            },
            r matches Ok(b) ==> b.samples.len() <= PERF_RING_LEN,
    {
        if bytes.len() < PERF_BLOB_SIZE {
            return Err(message("short blob: got ", bytes.len() as u64, " bytes, expected 1048"));
        }
        if !has_magic(bytes) {
            let mut out: String = String::new();
            push_text(&mut out, "bad magic: ");
            assert(out@ =~= "bad magic: "@);
            push_text(&mut out, "[");
            push_two_digits(&mut out, bytes[0]);
            push_text(&mut out, ", ");
            push_two_digits(&mut out, bytes[1]);
            push_text(&mut out, ", ");
            push_two_digits(&mut out, bytes[2]);
            push_text(&mut out, ", ");
            push_two_digits(&mut out, bytes[3]);
            push_text(&mut out, "]");
            assert(out@ =~= "bad magic: "@ + byte_list(bytes@));
            return Err(out);
        }
        let version: u32 = read_u32(bytes, 4);
        if version != PERF_VERSION {
            return Err(
                message("unsupported PerfBlob version ", version as u64, " (this tool knows 1)"),
            );
        }
        let head: u32 = read_u32(bytes, 8);
        let ring_len: u32 = read_u32(bytes, 12);
        let written: u64 = read_u64(bytes, 16);
        if ring_len != 256 {
            return Err(
                message(
                    "ring_len mismatch: blob says ",
                    ring_len as u64,
                    ", this tool was built for 256",
                ),
            );
        }
        let ring: Vec<u32> = read_u32s(bytes, 24, 256);
        let mut out: Vec<u32> = Vec::new();
        if written < 256 {
            push_nonzero(&mut out, ring.as_slice(), 0, written as usize);
            assert(ring@.subrange(0, written as int) =~= ring@.take(written as int));
            assert(Seq::<u32>::empty() + ring@.take(written as int) =~= ring@.take(written as int));
        } else {
            push_nonzero(&mut out, ring.as_slice(), head as usize, 256);
            let ghost old_part = ring@.subrange(head as int, 256);
            assert(Seq::<u32>::empty() + old_part =~= old_part);
            push_nonzero(&mut out, ring.as_slice(), 0, head as usize);
            assert(old_part =~= ring@.skip(head as int));
            assert(ring@.subrange(0, head as int) =~= ring@.take(head as int));
            proof {
                lemma_nonzero_parts(ring@.skip(head as int), ring@.take(head as int));
            }
        }
        proof {
            lemma_nonzero_len(ring_samples(ring@, head as int, written as int));
        }
        Ok(Blob { samples: out })
    }
}

proof fn lemma_nonzero_len(s: Seq<u32>)
    ensures
        nonzero(s).len() <= s.len(),
    decreases s.len(),
{
    if s.len() > 0 {
        lemma_nonzero_len(s.drop_last());
    }
}

proof fn lemma_nonzero_parts(a: Seq<u32>, b: Seq<u32>)
    ensures
        nonzero(a + b) == nonzero(a) + nonzero(b),
    decreases b.len(),
{
    if b.len() == 0 {
        assert(a + b =~= a);
        assert(nonzero(a) + nonzero(b) =~= nonzero(a));
    } else {
        lemma_nonzero_parts(a, b.drop_last());
        assert((a + b).drop_last() =~= a + b.drop_last());
        assert((a + b).last() == b.last());
        if b.last() != 0 {
            assert(nonzero(a) + nonzero(b) =~= (nonzero(a) + nonzero(b.drop_last())).push(b.last()));
        }
    }
}

proof fn lemma_nonzero_all(s: Seq<u32>)
    requires
        forall|i: int| 0 <= i < s.len() ==> #[trigger] s[i] != 0,
    ensures
        nonzero(s) == s,
    decreases s.len(),
{
    if s.len() > 0 {
        let t = s.drop_last();
        assert forall|i: int| 0 <= i < t.len() implies #[trigger] t[i] != 0 by {
            assert(t[i] == s[i]);
        }
        lemma_nonzero_all(t);
        assert(s[s.len() - 1] != 0);
        assert(t.push(s.last()) =~= s);
    }
}

/// Append the samples of `ring` between `from` and `to` that are no placeholders.
fn push_nonzero(out: &mut Vec<u32>, ring: &[u32], from: usize, to: usize)
    requires
        from <= to <= ring.len(),
    ensures
        final(out)@ == old(out)@ + nonzero(ring@.subrange(from as int, to as int)),
{
    let ghost start = out@;
    let mut i: usize = from;
    assert(ring@.subrange(from as int, from as int) =~= Seq::empty());
    assert(start + nonzero(Seq::empty()) =~= start);
    while i < to
        invariant
            from <= i <= to <= ring.len(),
            out@ == start + nonzero(ring@.subrange(from as int, i as int)),
        decreases to - i,
    {
        proof {
            let next = ring@.subrange(from as int, i + 1);
            assert(next.drop_last() =~= ring@.subrange(from as int, i as int));
            assert(next.last() == ring@[i as int]);
        }
        if ring[i] != 0 {
            out.push(ring[i]);
            assert(out@ =~= start + nonzero(ring@.subrange(from as int, i + 1)));
        }
        i = i + 1;
    }
}

/// The reader sees what the running program recorded: decoding the record's image,
/// whatever follows it in memory, gives exactly the ring's samples, oldest first.
pub proof fn law_reader_sees_the_ring(blob: PerfBlob, beyond: Seq<u8>)
    requires
        blob.wf(),
    ensures
        head_in_ring(blob.image() + beyond),
        blob_error(blob.image() + beyond) is None,
        blob_samples(blob.image() + beyond) == blob.samples(),
{
    let ring = blob.ring_us@;
    let s = blob.image() + beyond;
    lemma_u32s_le(ring);
    assert(blob.image().len() == 1048);
    assert(s.take(4) =~= blob.magic@);
    assert(s.subrange(4, 8) =~= u32_le(blob.version));
    assert(s.subrange(8, 12) =~= u32_le(blob.head));
    assert(s.subrange(12, 16) =~= u32_le(blob.ring_len));
    let lo = (blob.written % 0x1_0000_0000) as u32;
    let hi = (blob.written / 0x1_0000_0000) as u32;
    assert(s.subrange(16, 20) =~= u32_le(lo));
    assert(s.subrange(20, 24) =~= u32_le(hi));
    lemma_u32_at(s, 4, blob.version);
    lemma_u32_at(s, 8, blob.head);
    lemma_u32_at(s, 12, blob.ring_len);
    lemma_u32_at(s, 16, lo);
    lemma_u32_at(s, 20, hi);
    assert(u64_at(s, 16) == blob.written);
    assert(s.subrange(24, 1048) =~= u32s_le(ring));
    lemma_u32s_at(s, 24, ring);
    assert(u32s_at(s, 24, 256) =~= ring);
    lemma_nonzero_all(blob.samples());
}

} // verus!
