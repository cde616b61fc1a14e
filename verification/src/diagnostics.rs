//! The frame-time record that a debugger reads out of main memory: a short ring
//! of per-frame microsecond samples behind a fixed header.

use crate::bytes::{u32_le, u32s_le};
use vstd::prelude::*;

verus! {

/// The samples that the ring holds.
pub const PERF_RING_LEN: usize = 256;

/// The bytes `BVDS`, by which the record is found in memory.
pub const PERF_MAGIC: [u8; 4] = [66, 86, 68, 83];

/// The layout's version.
pub const PERF_VERSION: u32 = 1;

/// The record. While fewer samples than the ring holds have been written they
/// stand from the start of the ring; from then on the oldest is at `head`.
pub struct PerfBlob {
    pub magic: [u8; 4],
    pub version: u32,
    /// The slot that is written next.
    pub head: u32,
    pub ring_len: u32,
    /// Samples ever written; stays at the largest value.
    pub written: u64,
    /// Microseconds per frame; zero where there is no sample yet.
    pub ring_us: [u32; 256],
}

/// The samples of a ring, oldest first.
pub open spec fn ring_samples(ring: Seq<u32>, head: int, written: int) -> Seq<u32> {
    if written < ring.len() {
        ring.take(written)
    } else {
        ring.skip(head) + ring.take(head)
    }
}

/// The last samples of `s` that fit in a ring.
pub open spec fn newest(s: Seq<u32>) -> Seq<u32> {
    if s.len() <= PERF_RING_LEN {
        s
    } else {
        s.skip(s.len() - PERF_RING_LEN)
    }
}

/// Eight little-endian bytes.
pub open spec fn u64_le(v: u64) -> Seq<u8> {
    u32_le((v % 0x1_0000_0000) as u32) + u32_le((v / 0x1_0000_0000) as u32)
}

impl PerfBlob {
    /// The header is stamped, `head` follows the count and no sample is zero.
    pub open spec fn wf(self) -> bool {
        &&& self.magic@ == PERF_MAGIC@
        &&& self.version == PERF_VERSION
        &&& self.ring_len == PERF_RING_LEN
        &&& self.head < PERF_RING_LEN
        &&& self.written < u64::MAX ==> self.head == self.written % 256
        &&& forall|i: int| 0 <= i < self.samples().len() ==> #[trigger] self.samples()[i] != 0
    }

    /// The samples, oldest first.
    pub open spec fn samples(self) -> Seq<u32> {
        ring_samples(self.ring_us@, self.head as int, self.written as int)
    }

    /// The record as it lies in memory, fields in order and little-endian.
    pub open spec fn image(self) -> Seq<u8> {
        self.magic@ + u32_le(self.version) + u32_le(self.head) + u32_le(self.ring_len) + u64_le(
            self.written,
        ) + u32s_le(self.ring_us@)
    }

    /// An empty ring.
    pub fn new() -> (r: PerfBlob)
        ensures
            r.wf(),
            r.head == 0,
            r.written == 0,
            r.ring_us@ == Seq::new(256, |i: int| 0u32),
            r.samples() == Seq::<u32>::empty(),
    {
        let r = PerfBlob {
            magic: PERF_MAGIC,
            version: PERF_VERSION,
            head: 0,
            ring_len: 256,
            written: 0,
            ring_us: [0;256],
        };
        assert(r.ring_us@ =~= Seq::new(256, |i: int| 0u32));
        assert(r.samples() =~= Seq::<u32>::empty());
        r
    }

    /// Write one sample. A zero is dropped, for it would read as no sample.
    pub fn push_us(&mut self, us: u32)
        requires
            old(self).wf(),
        ensures
            final(self).wf(),
            us == 0 ==> *final(self) == *old(self),
            us != 0 ==> {
                &&& final(self).ring_us@ == old(self).ring_us@.update(old(self).head as int, us)
                &&& final(self).head == (old(self).head + 1) % 256
                &&& final(self).written == if old(self).written == u64::MAX {
                    u64::MAX as int
                } else {
                    old(self).written + 1
                }
                &&& final(self).samples() == newest(old(self).samples().push(us))
            },
    {
        if us == 0 {
            return;
        }
        let ghost before = *self;
        let head: usize = self.head as usize;
        self.ring_us[head] = us;
        self.head = ((head + 1) % PERF_RING_LEN) as u32;
        if self.written < u64::MAX {
            self.written = self.written + 1;
        }
        proof {
            let ring = before.ring_us@;
            let now = self.ring_us@;
            assert(now =~= ring.update(head as int, us));
            assert(u64::MAX % 256 == 255);
            let want = newest(before.samples().push(us));
            let got = self.samples();
            assert(got.len() == want.len());
            assert(got =~= want);
            assert forall|i: int| 0 <= i < got.len() implies #[trigger] got[i] != 0 by {
                let all = before.samples().push(us);
                let j = i + all.len() - got.len();
                assert(got[i] == all[j]);
                if j < before.samples().len() {
                    assert(all[j] == before.samples()[j]);
                }
            }
        }
    }
}

impl Default for PerfBlob {
    fn default() -> (r: PerfBlob)
        ensures
            r.wf(),
            r.samples() == Seq::<u32>::empty(),
            r.written == 0,
    {
        PerfBlob::new()
    }
}

/// Microseconds of a frame that took so many nanoseconds, cut to 32 bits.
pub fn frame_us(nanos: u128) -> (us: u32)
    ensures
        us == (nanos / 1000) % 0x1_0000_0000,
{
    let m: u128 = (nanos / 1000) % 0x1_0000_0000;
    m as u32
}

/// The ring keeps the newest samples: after any number of frames it holds the
/// last of them that fit, in the order in which they came.
pub proof fn law_ring_keeps_the_newest(earlier: Seq<u32>, us: u32)
    ensures
        newest(newest(earlier).push(us)) == newest(earlier.push(us)),
{
    assert(newest(newest(earlier).push(us)) =~= newest(earlier.push(us)));
}

} // verus!
