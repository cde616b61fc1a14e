//! Packets of the debugger's remote protocol: `$body#XX`, with acknowledgements
//! between them.

use crate::bytes::{copy_range, push_bytes};
use vstd::prelude::*;

verus! {

/// An acknowledgement, `+` or `-`.
pub open spec fn is_ack(b: u8) -> bool {
    b == 43 || b == 45
}

/// How many acknowledgements stand in front.
pub open spec fn leading_acks(s: Seq<u8>) -> int
    decreases s.len(),
{
    if s.len() > 0 && is_ack(s[0]) {
        1 + leading_acks(s.skip(1))
    } else {
        0
    }
}

/// Where `b` first stands at or behind `from`; the length where it does not.
pub open spec fn find_byte(s: Seq<u8>, b: u8, from: int) -> int
    decreases s.len() - from,
{
    if from < 0 || from >= s.len() {
        s.len() as int
    } else if s[from] == b {
        from
    } else {
        find_byte(s, b, from + 1)
    }
}

/// The first whole packet's body, and what follows the packet.
pub open spec fn packet_in(s: Seq<u8>) -> Option<(Seq<u8>, Seq<u8>)> {
    let dollar = find_byte(s, 36, 0);
    let hash = find_byte(s, 35, dollar);
    if hash + 3 <= s.len() {
        Some((s.subrange(dollar + 1, hash), s.skip(hash + 3)))
    } else {
        None
    }
}

pub proof fn lemma_find_byte(s: Seq<u8>, b: u8, from: int, at: int)
    requires
        0 <= from <= at <= s.len(),
        forall|i: int| from <= i < at ==> #[trigger] s[i] != b,
        at < s.len() ==> s[at] == b,
    ensures
        find_byte(s, b, from) == at,
    decreases at - from,
{
    if from < at {
        assert(s[from] != b);
        lemma_find_byte(s, b, from + 1, at);
    }
}

pub proof fn lemma_leading_acks(s: Seq<u8>, n: int)
    requires
        0 <= n <= s.len(),
        forall|i: int| 0 <= i < n ==> is_ack(#[trigger] s[i]),
        n < s.len() ==> !is_ack(s[n]),
    ensures
        leading_acks(s) == n,
    decreases n,
{
    if n > 0 {
        assert(is_ack(s[0]));
        assert forall|i: int| 0 <= i < n - 1 implies is_ack(#[trigger] s.skip(1)[i]) by {
            assert(s.skip(1)[i] == s[i + 1]);
        }
        lemma_leading_acks(s.skip(1), n - 1);
    }
}

/// Where `b` first stands at or behind `from`; the length where it does not.
fn position(s: &[u8], b: u8, from: usize) -> (r: usize)
    requires
        from <= s.len(),
    ensures
        r == find_byte(s@, b, from as int),
        from <= r <= s.len(),
        r < s.len() ==> s@[r as int] == b,
{
    let mut i: usize = from;
    while i < s.len() && s[i] != b
        invariant
            from <= i <= s.len(),
            forall|k: int| from <= k < i ==> #[trigger] s@[k] != b,
        decreases s.len() - i,
    {
        i = i + 1;
    }
    proof {
        lemma_find_byte(s@, b, from as int, i as int);
    }
    i
}

/// Take the first whole packet out of `buf` and hand out its body. The
/// acknowledgements in front go in any case; where no packet is whole yet, the rest
/// stays.
pub fn take_packet(buf: &mut Vec<u8>) -> (r: Option<Vec<u8>>)
    ensures
        ({
            let s = old(buf)@.skip(leading_acks(old(buf)@));
            match r {
                Some(body) => packet_in(s) == Some((body@, final(buf)@)),
                None => packet_in(s) is None && final(buf)@ == s,
            }
        }),
{
    let ghost start = buf@;
    let mut acks: usize = 0;
    while acks < buf.len() && (buf[acks] == 43 || buf[acks] == 45)
        invariant
            acks <= buf.len(),
            buf@ == start,
            forall|k: int| 0 <= k < acks ==> is_ack(#[trigger] start[k]),
        decreases buf.len() - acks,
    {
        acks = acks + 1;
    }
    proof {
        lemma_leading_acks(start, acks as int);
    }
    let rest: Vec<u8> = copy_range(buf.as_slice(), acks, buf.len());
    let ghost s = start.skip(acks as int);
    assert(rest@ =~= s);
    let dollar: usize = position(rest.as_slice(), 36, 0);
    let hash: usize = position(rest.as_slice(), 35, dollar);
    if rest.len() < 3 || hash > rest.len() - 3 {
        *buf = rest;
        return None;
    }
    assert(dollar < rest.len());
    assert(rest@[dollar as int] == 36 && rest@[hash as int] == 35);
    let body: Vec<u8> = copy_range(rest.as_slice(), dollar + 1, hash);
    let tail: Vec<u8> = copy_range(rest.as_slice(), hash + 3, rest.len());
    assert(tail@ =~= s.skip(hash + 3));
    *buf = tail;
    Some(body)
}

/// The sum of the bytes.
pub open spec fn byte_sum(s: Seq<u8>) -> int
    decreases s.len(),
{
    if s.len() == 0 {
        0
    } else {
        byte_sum(s.drop_last()) + s.last()
    }
}

/// The lower-case digit for `d`.
pub open spec fn hex_byte(d: int) -> u8 {
    if d < 10 {
        (48 + d) as u8
    } else {
        (87 + d) as u8
    }
}

/// A byte as two hexadecimal digits.
pub open spec fn hex_pair(b: u8) -> Seq<u8> {
    seq![hex_byte(b as int / 16), hex_byte(b as int % 16)]
}

/// A body as a packet: behind `#` stands the sum of its bytes, modulo 256.
pub open spec fn packet_of(body: Seq<u8>) -> Seq<u8> {
    seq![36u8] + body + seq![35u8] + hex_pair((byte_sum(body) % 256) as u8)
}

/// The lower-case digit for `d`.
pub fn hex_digit(d: u8) -> (r: u8)
    requires
        d < 16,
    ensures
        r == hex_byte(d as int),
{
    if d < 10 {
        48 + d
    } else {
        87 + d
    }
}

/// The body's checksum: the sum of its bytes, modulo 256.
pub fn checksum(body: &[u8]) -> (r: u8)
    ensures
        r == byte_sum(body@) % 256,
{
    let mut sum: u8 = 0;
    let mut i: usize = 0;
    assert(body@.take(0) =~= Seq::empty());
    while i < body.len()
        invariant
            i <= body.len(),
            sum == byte_sum(body@.take(i as int)) % 256,
        decreases body.len() - i,
    {
        proof {
            let next = body@.take(i + 1);
            assert(next.drop_last() =~= body@.take(i as int));
            assert(next.last() == body@[i as int]);
        }
        sum = sum.wrapping_add(body[i]);
        i = i + 1;
    }
    assert(body@.take(body.len() as int) =~= body@);
    sum
}

/// Make a packet of `body`.
pub fn frame(body: &[u8]) -> (r: Vec<u8>)
    ensures
        r@ == packet_of(body@),
{
    let sum: u8 = checksum(body);
    let mut p: Vec<u8> = Vec::new();
    p.push(36);
    push_bytes(&mut p, body);
    p.push(35);
    p.push(hex_digit(sum / 16));
    p.push(hex_digit(sum % 16));
    assert(p@ =~= packet_of(body@));
    p
}

/// The value of a hexadecimal digit in either case.
pub open spec fn hex_value(b: u8) -> Option<u8> {
    if 48 <= b <= 57 {
        Some((b - 48) as u8)
    } else if 97 <= b <= 102 {
        Some((b - 87) as u8)
    } else if 65 <= b <= 70 {
        Some((b - 55) as u8)
    } else {
        None
    }
}

/// The value of a hexadecimal digit in either case.
pub fn hex_val(b: u8) -> (r: Option<u8>)
    ensures
        r == hex_value(b),
        r matches Some(v) ==> v < 16,
{
    if 48 <= b && b <= 57 {
        Some(b - 48)
    } else if 97 <= b && b <= 102 {
        Some(b - 87)
    } else if 65 <= b && b <= 70 {
        Some(b - 55)
    } else {
        None
    }
}

/// A packet is read back: behind any acknowledgements, `take_packet` hands out the
/// body that was framed and leaves what followed. The body must not hold a `#`,
/// which would end it early.
pub proof fn law_packet_round_trip(acks: Seq<u8>, body: Seq<u8>, rest: Seq<u8>)
    requires
        forall|i: int| 0 <= i < acks.len() ==> is_ack(#[trigger] acks[i]),
        forall|i: int| 0 <= i < body.len() ==> #[trigger] body[i] != 35,
    ensures
        leading_acks(acks + packet_of(body) + rest) == acks.len(),
        packet_in((acks + packet_of(body) + rest).skip(acks.len() as int)) == Some((body, rest)),
{
    let whole = acks + packet_of(body) + rest;
    let s = whole.skip(acks.len() as int);
    let hash = body.len() as int + 1;
    assert forall|i: int| 0 <= i < acks.len() implies is_ack(#[trigger] whole[i]) by {
        assert(whole[i] == acks[i]);
    }
    lemma_leading_acks(whole, acks.len() as int);
    assert(s =~= packet_of(body) + rest);
    lemma_find_byte(s, 36, 0, 0);
    assert forall|i: int| 0 <= i < hash implies #[trigger] s[i] != 35 by {
        if i > 0 {
            assert(s[i] == body[i - 1]);
        }
    }
    lemma_find_byte(s, 35, 0, hash as int);
    assert(s.subrange(1, hash as int) =~= body);
    assert(s.skip(hash + 3) =~= rest);
}

/// Only whole packets are handed out: while nothing but the start of a packet has
/// come, nothing is, and what has come stays.
pub proof fn law_partial_packet_waits(body: Seq<u8>, n: int)
    requires
        0 <= n < packet_of(body).len(),
        forall|i: int| 0 <= i < body.len() ==> #[trigger] body[i] != 35,
    ensures
        packet_in(packet_of(body).take(n)) is None,
{
    let s = packet_of(body).take(n);
    let hash = body.len() as int + 1;
    if n > 0 {
        assert(s[0] == 36);
        lemma_find_byte(s, 36, 0, 0);
        let at = if n < hash { n } else { hash as int };
        assert forall|i: int| 0 <= i < at implies #[trigger] s[i] != 35 by {
            if i > 0 {
                assert(s[i] == body[i - 1]);
            }
        }
        if at < n {
            assert(s[at] == 35);
        }
        lemma_find_byte(s, 35, 0, at);
    }
}

} // verus!
