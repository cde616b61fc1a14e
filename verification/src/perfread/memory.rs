//! Reading memory through the stub in small pieces, and the search for the
//! record.

use crate::bytes::push_bytes;
use crate::diagnostics::PERF_MAGIC;
use crate::perfread::packet::{hex_byte, hex_pair, hex_val, hex_value};
use crate::strings::{chars_of, decimal, hexadecimal, push_text, to_decimal, to_hexadecimal};
use vstd::prelude::*;
use vstd::utf8::{decode_utf8, encode_utf8_decode_utf8, valid_utf8};

verus! {

/// The longest piece that is asked for at once; the stub garbles longer replies.
pub const PIECE: usize = 256;

/// Text as bytes, one per character.
pub open spec fn ascii(s: Seq<char>) -> Seq<u8> {
    Seq::new(s.len(), |i: int| s[i] as u8)
}

fn push_ascii(out: &mut Vec<u8>, s: &str)
    ensures
        final(out)@ == old(out)@ + ascii(s@),
{
    let v: Vec<char> = chars_of(s);
    let ghost start = out@;
    let mut i: usize = 0;
    assert(start + ascii(s@).take(0) =~= start);
    while i < v.len()
        invariant
            i <= v.len(),
            v@ == s@,
            out@ == start + ascii(s@).take(i as int),
        decreases v.len() - i,
    {
        out.push(v[i] as u8);
        assert(out@ =~= start + ascii(s@).take(i + 1));
        i = i + 1;
    }
    assert(ascii(s@).take(v.len() as int) =~= ascii(s@));
}

/// Pairs of hexadecimal digits as the bytes they write; nothing where a digit is
/// none.
pub open spec fn unhex(s: Seq<u8>) -> Option<Seq<u8>> {
    if forall|i: int| 0 <= i < s.len() ==> hex_value(#[trigger] s[i]) is Some {
        Some(
            Seq::new(
                s.len() / 2,
                |i: int| (16 * hex_value(s[2 * i])->0 + hex_value(s[2 * i + 1])->0) as u8,
            ),
        )
    } else {
        None
    }
}

/// Bytes as pairs of hexadecimal digits.
pub open spec fn hex_text(s: Seq<u8>) -> Seq<u8>
    decreases s.len(),
{
    if s.len() == 0 {
        s
    } else {
        hex_text(s.drop_last()) + hex_pair(s.last())
    }
}

/// Pairs of hexadecimal digits as the bytes they write.
fn unhex_pairs(s: &[u8]) -> (r: Option<Vec<u8>>)
    requires
        s.len() % 2 == 0,
    ensures
        match r {
            Some(v) => unhex(s@) == Some(v@),
            None => unhex(s@) is None,
        },
{
    let mut out: Vec<u8> = Vec::new();
    let mut i: usize = 0;
    while i < s.len() / 2
        invariant
            s.len() % 2 == 0,
            i <= s.len() / 2,
            out.len() == i,
            forall|k: int| 0 <= k < 2 * i ==> hex_value(#[trigger] s@[k]) is Some,
            forall|k: int|
                0 <= k < i ==> #[trigger] out@[k] == (16 * hex_value(s@[2 * k])->0 + hex_value(
                    s@[2 * k + 1],
                )->0) as u8,
        decreases s.len() / 2 - i,
    {
        let hi: u8 = match hex_val(s[2 * i]) {
            Some(v) => v,
            None => {
                assert(hex_value(s@[2 * i as int]) is None);
                return None;
            },
        };
        let lo: u8 = match hex_val(s[2 * i + 1]) {
            Some(v) => v,
            None => {
                assert(hex_value(s@[2 * i as int + 1]) is None);
                return None;
            },
        };
        out.push(hi * 16 + lo);
        i = i + 1;
    }
    assert(unhex(s@) is Some);
    assert(out@ =~= unhex(s@)->0);
    Some(out)
}

/// A memory read that is under way. What has been read stands in `out`; the next
/// piece starts behind it.
#[derive(Debug, Clone)]
pub struct MemRead {
    pub addr: u32,
    pub len: usize,
    pub out: Vec<u8>,
}

impl MemRead {
    /// The read lies in the address space and has not gone past its end.
    pub open spec fn wf(self) -> bool {
        &&& self.out@.len() <= self.len
        &&& self.addr + self.len <= 0x1_0000_0000
    }

    /// How much is asked for next.
    pub open spec fn piece(self) -> int {
        if self.len - self.out@.len() < PIECE {
            self.len - self.out@.len()
        } else {
            PIECE as int
        }
    }

    /// What a reply to the next request comes to: the bytes it brings, or what is
    /// wrong with it. A reply that starts with `E` is the stub's own error.
    pub open spec fn reply_of(self, reply: Seq<u8>) -> Result<Seq<u8>, Seq<char>> {
        let off = hexadecimal(self.out@.len());
        if reply.len() > 0 && reply[0] == 69 {
            let code = if valid_utf8(reply.skip(1)) {
                decode_utf8(reply.skip(1))
            } else {
                "?"@
            };
            Err("stub returned error E"@ + code + " at +"@ + off)
        } else if reply.len() != 2 * self.piece() {
            Err(
                "short read: asked "@ + decimal(self.piece() as nat) + " bytes, got "@ + decimal(
                    reply.len(),
                ) + " hex chars at +"@ + off,
            )
        } else {
            match unhex(reply) {
                Some(b) => Ok(b),
                None => Err("bad hex"@),
            }
        }
    }

    /// Start reading `len` bytes at `addr`.
    pub fn new(addr: u32, len: usize) -> (r: MemRead)
        requires
            addr + len <= 0x1_0000_0000,
        ensures
            r.wf(),
            r.addr == addr,
            r.len == len,
            r.out@ == Seq::<u8>::empty(),
    {
        MemRead { addr, len, out: Vec::new() }
    }

    fn next_piece(&self) -> (r: usize)
        requires
            self.wf(),
        ensures
            r == self.piece(),
    {
        let left: usize = self.len - self.out.len();
        if left < PIECE {
            left
        } else {
            PIECE
        }
    }

    /// The next request, `m<address>,<length>`; none once everything has been read.
    pub fn request(&self) -> (r: Option<Vec<u8>>)
        requires
            self.wf(),
        ensures
            r is None <==> self.out@.len() == self.len,
            r matches Some(c) ==> c@ == seq![109u8] + ascii(
                hexadecimal((self.addr + self.out@.len()) as nat),
            ) + seq![44u8] + ascii(hexadecimal(self.piece() as nat)),
    {
        if self.out.len() == self.len {
            return None;
        }
        let at: u32 = self.addr + self.out.len() as u32;
        let mut c: Vec<u8> = Vec::new();
        c.push(109);
        push_ascii(&mut c, &to_hexadecimal(at as u64));
        c.push(44);
        push_ascii(&mut c, &to_hexadecimal(self.next_piece() as u64));
        assert(c@ =~= seq![109u8] + ascii(hexadecimal((self.addr + self.out@.len()) as nat))
            + seq![44u8] + ascii(hexadecimal(self.piece() as nat)));
        Some(c)
    }

    /// Take in the reply to the last request.
    pub fn accept(&mut self, reply: &[u8]) -> (r: Result<(), String>)
        requires
            old(self).wf(),
        ensures
            final(self).wf(),
            final(self).addr == old(self).addr,
            final(self).len == old(self).len,
            match r {
                Ok(_) => old(self).reply_of(reply@) is Ok && final(self).out@ == old(self).out@
                    + old(self).reply_of(reply@)->Ok_0,
                Err(e) => old(self).reply_of(reply@) == Err::<Seq<u8>, Seq<char>>(e@)
                    && final(self).out@ == old(self).out@,
            },
    {
        let off: String = to_hexadecimal(self.out.len() as u64);
        let piece: usize = self.next_piece();
        if reply.len() > 0 && reply[0] == 69 {
            let rest: Vec<u8> = crate::bytes::copy_range(reply, 1, reply.len());
            assert(rest@ =~= reply@.skip(1));
            let mut e: String = String::new();
            push_text(&mut e, "stub returned error E");
            assert(e@ =~= "stub returned error E"@);
            match core::str::from_utf8(rest.as_slice()) {
                Ok(t) => {
                    broadcast use encode_utf8_decode_utf8;

                    push_text(&mut e, t);
                },
                Err(_) => {
                    push_text(&mut e, "?");
                },
            }
            push_text(&mut e, " at +");
            push_text(&mut e, &off);
            return Err(e);
        }
        if reply.len() % 2 != 0 || reply.len() / 2 != piece {
            let mut e: String = String::new();
            push_text(&mut e, "short read: asked ");
            assert(e@ =~= "short read: asked "@);
            push_text(&mut e, &to_decimal(piece as u64));
            push_text(&mut e, " bytes, got ");
            push_text(&mut e, &to_decimal(reply.len() as u64));
            push_text(&mut e, " hex chars at +");
            push_text(&mut e, &off);
            return Err(e);
        }
        match unhex_pairs(reply) {
            Some(b) => {
                push_bytes(&mut self.out, b.as_slice());
                Ok(())
            },
            None => {
                let mut e: String = String::new();
                push_text(&mut e, "bad hex");
                assert(e@ =~= "bad hex"@);
                Err(e)
            },
        }
    }
}

/// Where main memory starts.
pub const MAIN_RAM_BASE: u32 = 0x0200_0000;

/// Where main memory ends.
pub const MAIN_RAM_END: u32 = 0x0240_0000;

/// How much of it is searched at once.
pub const SWEEP_STEP: u32 = 0x1_0000;

/// The record's first four bytes stand at `i`.
pub open spec fn magic_at(s: Seq<u8>, i: int) -> bool {
    0 <= i && i + 4 <= s.len() && s.subrange(i, i + 4) == PERF_MAGIC@
}

/// The search through main memory, one stretch at a time.
#[derive(Debug, Clone, Copy, PartialEq, Eq, Structural)]
pub struct Sweep {
    pub addr: u32,
}

impl Sweep {
    /// The stretch that is looked at next starts on a step of main memory.
    pub open spec fn wf(self) -> bool {
        MAIN_RAM_BASE <= self.addr <= MAIN_RAM_END && self.addr % SWEEP_STEP == 0
    }

    /// Start at the beginning of main memory.
    pub fn new() -> (r: Sweep)
        ensures
            r.wf(),
            r.addr == MAIN_RAM_BASE,
    {
        Sweep { addr: MAIN_RAM_BASE }
    }

    /// Address and length of the stretch to read; none at the end of main memory.
    pub fn stretch(&self) -> (r: Option<(u32, usize)>)
        requires
            self.wf(),
        ensures
            r == if self.addr < MAIN_RAM_END {
                Some((self.addr, SWEEP_STEP as usize))
            } else {
                None::<(u32, usize)>
            },
    {
        if self.addr < MAIN_RAM_END {
            Some((self.addr, SWEEP_STEP as usize))
        } else {
            None
        }
    }

    /// Look through the stretch: the address of the record's start, if it is there;
    /// otherwise the search moves on.
    pub fn look(&mut self, bytes: &[u8]) -> (r: Option<u32>)
        requires
            old(self).wf(),
            old(self).addr < MAIN_RAM_END,
            bytes.len() == SWEEP_STEP,
        ensures
            final(self).wf(),
            match r {
                Some(a) => {
                    &&& magic_at(bytes@, a - old(self).addr)
                    &&& forall|k: int| k < a - old(self).addr ==> !#[trigger] magic_at(bytes@, k)
                    &&& *final(self) == *old(self)
                },
                None => {
                    &&& forall|k: int| !#[trigger] magic_at(bytes@, k)
                    &&& final(self).addr == old(self).addr + SWEEP_STEP
                },
            },
    {
        assert(PERF_MAGIC@ =~= seq![66u8, 86, 68, 83]);
        let mut i: usize = 0;
        while i < bytes.len() - 3
            invariant
                bytes.len() == SWEEP_STEP,
                i <= bytes.len() - 3,
                self.wf(),
                *self == *old(self),
                self.addr < MAIN_RAM_END,
                PERF_MAGIC@ == seq![66u8, 86, 68, 83],
                forall|k: int| k < i ==> !#[trigger] magic_at(bytes@, k),
            decreases bytes.len() - i,
        {
            let ghost t = bytes@.subrange(i as int, i + 4);
            if bytes[i] == 66 && bytes[i + 1] == 86 && bytes[i + 2] == 68 && bytes[i + 3] == 83 {
                assert(t =~= PERF_MAGIC@);
                assert(magic_at(bytes@, i as int));
                return Some(self.addr + i as u32);
            }
            assert(t[0] == bytes@[i as int] && t[1] == bytes@[i + 1] && t[2] == bytes@[i + 2] && t[3]
                == bytes@[i + 3]);
            assert(!magic_at(bytes@, i as int));
            i = i + 1;
        }
        self.addr = self.addr + SWEEP_STEP;
        None
    }

    /// What is reported where main memory holds no record.
    pub fn not_found() -> (r: String)
        ensures
            r@ == "magic \"BVDS\" not found in 0x02000000..0x02400000"@,
    {
        let mut e: String = String::new();
        push_text(&mut e, "magic \"BVDS\" not found in 0x02000000..0x02400000");
        assert(e@ =~= "magic \"BVDS\" not found in 0x02000000..0x02400000"@);
        e
    }
}

/// A record that starts on a word of main memory lies in one stretch with its first
/// four bytes, so the search does not miss it between two stretches.
pub proof fn law_aligned_record_is_not_split(a: int)
    requires
        MAIN_RAM_BASE <= a < MAIN_RAM_END,
        a % 4 == 0,
    ensures
        ({
            let stretch = Sweep { addr: (a - a % 0x1_0000) as u32 };
            &&& stretch.wf()
            &&& stretch.addr <= a
            &&& a + 4 <= stretch.addr + SWEEP_STEP
        }),
{
}

proof fn lemma_hex_text(s: Seq<u8>)
    ensures
        hex_text(s).len() == 2 * s.len(),
        forall|i: int|
            0 <= i < s.len() ==> hex_text(s)[2 * i] == hex_byte(#[trigger] s[i] as int / 16)
                && hex_text(s)[2 * i + 1] == hex_byte(s[i] as int % 16),
    decreases s.len(),
{
    if s.len() > 0 {
        let t = s.drop_last();
        lemma_hex_text(t);
        assert forall|i: int| 0 <= i < s.len() implies hex_text(s)[2 * i] == hex_byte(
            #[trigger] s[i] as int / 16,
        ) && hex_text(s)[2 * i + 1] == hex_byte(s[i] as int % 16) by {
            if i < t.len() {
                assert(t[i] == s[i]);
                assert(hex_text(s)[2 * i] == hex_text(t)[2 * i]);
                assert(hex_text(s)[2 * i + 1] == hex_text(t)[2 * i + 1]);
            }
        }
    }
}

/// Digits written by a stub read back as the bytes they stand for.
pub proof fn law_hex_round_trip(s: Seq<u8>)
    ensures
        unhex(hex_text(s)) == Some(s),
        hex_text(s).len() == 2 * s.len(),
        hex_text(s).len() > 0 ==> hex_text(s)[0] != 69,
{
    lemma_hex_text(s);
    let h = hex_text(s);
    assert forall|i: int| 0 <= i < h.len() implies hex_value(#[trigger] h[i]) is Some by {
        let k = i / 2;
        assert(h[2 * k] == hex_byte(s[k] as int / 16));
        assert(i == 2 * k || i == 2 * k + 1);
    }
    assert(unhex(h) is Some);
    let u = unhex(h)->0;
    assert forall|k: int| 0 <= k < s.len() implies u[k] == s[k] by {
        assert(h[2 * k] == hex_byte(s[k] as int / 16));
    }
    assert(u =~= s);
    if s.len() > 0 {
        assert(h[2 * 0int] == hex_byte(s[0] as int / 16));
    }
}

/// Reading back memory: while the stub answers every request with the digits of the
/// memory asked for, what has been read is that memory from its start on.
pub proof fn law_pieces_add_up(read: MemRead, mem: Seq<u8>)
    requires
        read.wf(),
        mem.len() == read.len,
        read.out@ == mem.take(read.out@.len() as int),
    ensures
        ({
            let off = read.out@.len() as int;
            let reply = hex_text(mem.subrange(off, off + read.piece()));
            &&& read.reply_of(reply) is Ok
            &&& read.out@ + read.reply_of(reply)->Ok_0 == mem.take(off + read.piece())
        }),
{
    let off = read.out@.len() as int;
    let part = mem.subrange(off, off + read.piece());
    law_hex_round_trip(part);
    assert(read.out@ + part =~= mem.take(off + read.piece()));
}

} // verus!
