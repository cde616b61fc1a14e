//! Statistics of frame-time samples.

use crate::perfread::blob::Blob;
use vstd::prelude::*;

verus! {

/// `s` with `x` put behind the last value that is not above it.
pub open spec fn put_in(s: Seq<u32>, x: u32) -> Seq<u32>
    decreases s.len(),
{
    if s.len() == 0 || s.last() <= x {
        s.push(x)
    } else {
        put_in(s.drop_last(), x).push(s.last())
    }
}

/// The values of `s` in ascending order.
pub open spec fn ascending(s: Seq<u32>) -> Seq<u32>
    decreases s.len(),
{
    if s.len() == 0 {
        s
    } else {
        put_in(ascending(s.drop_last()), s.last())
    }
}

/// The sum of the samples.
pub open spec fn total(s: Seq<u32>) -> int
    decreases s.len(),
{
    if s.len() == 0 {
        0
    } else {
        total(s.drop_last()) + s.last()
    }
}

/// The index of the `p`-th percentile among `n` sorted samples: `p` hundredths of
/// `n`, rounded down, but never past the last.
pub open spec fn percentile_of(n: int, p: int) -> int {
    if p * n / 100 < n - 1 {
        p * n / 100
    } else {
        n - 1
    }
}

proof fn lemma_put_in(s: Seq<u32>, x: u32, p: int)
    requires
        0 <= p <= s.len(),
        forall|i: int| p <= i < s.len() ==> #[trigger] s[i] > x,
        p > 0 ==> s[p - 1] <= x,
    ensures
        put_in(s, x) == s.insert(p, x),
    decreases s.len(),
{
    if p < s.len() {
        lemma_put_in(s.drop_last(), x, p);
    }
    assert(put_in(s, x) =~= s.insert(p, x));
}

proof fn lemma_put_in_sorted(s: Seq<u32>, x: u32)
    requires
        forall|i: int, j: int| 0 <= i < j < s.len() ==> s[i] <= s[j],
    ensures
        put_in(s, x).len() == s.len() + 1,
        forall|i: int, j: int|
            0 <= i < j < put_in(s, x).len() ==> put_in(s, x)[i] <= put_in(s, x)[j],
        forall|i: int|
            0 <= i < put_in(s, x).len() ==> (#[trigger] put_in(s, x)[i] == x || s.contains(
                put_in(s, x)[i],
            )),
        put_in(s, x).to_multiset() == s.to_multiset().insert(x),
    decreases s.len(),
{
    broadcast use vstd::seq_lib::group_to_multiset_ensures;

    if s.len() > 0 && s.last() > x {
        let front = s.drop_last();
        let t = put_in(front, x);
        lemma_put_in_sorted(front, x);
        assert(s =~= front.push(s.last()));
        assert forall|i: int| 0 <= i < t.len() implies #[trigger] t[i] <= s.last() by {
            if t[i] != x {
                let k = choose|k: int| 0 <= k < front.len() && front[k] == t[i];
                assert(s[k] <= s[s.len() - 1]);
            }
        }
        assert forall|i: int| 0 <= i < put_in(s, x).len() implies (#[trigger] put_in(s, x)[i] == x
            || s.contains(put_in(s, x)[i])) by {
            if i < t.len() {
                assert(put_in(s, x)[i] == t[i]);
                if t[i] != x {
                    let k = choose|k: int| 0 <= k < front.len() && front[k] == t[i];
                    assert(s[k] == t[i]);
                }
            } else {
                assert(s[s.len() - 1] == put_in(s, x)[i]);
            }
        }
        assert(put_in(s, x).to_multiset() =~= s.to_multiset().insert(x));
    } else {
        assert forall|i: int| 0 <= i < put_in(s, x).len() implies (#[trigger] put_in(s, x)[i] == x
            || s.contains(put_in(s, x)[i])) by {
            if i < s.len() {
                assert(put_in(s, x)[i] == s[i]);
            }
        }
    }
}

/// Sorting gives the same samples in ascending order.
pub proof fn law_ascending_sorts(s: Seq<u32>)
    ensures
        ascending(s).len() == s.len(),
        ascending(s).to_multiset() == s.to_multiset(),
        forall|i: int, j: int| 0 <= i < j < s.len() ==> ascending(s)[i] <= ascending(s)[j],
    decreases s.len(),
{
    broadcast use vstd::seq_lib::group_to_multiset_ensures;

    if s.len() > 0 {
        law_ascending_sorts(s.drop_last());
        lemma_put_in_sorted(ascending(s.drop_last()), s.last());
        assert(s =~= s.drop_last().push(s.last()));
    }
}

proof fn lemma_ascending_len(s: Seq<u32>)
    ensures
        ascending(s).len() == s.len(),
{
    law_ascending_sorts(s);
}

proof fn lemma_total_part(s: Seq<u32>, n: int)
    requires
        0 <= n <= s.len(),
    ensures
        0 <= total(s.take(n)) <= total(s),
    decreases s.len(),
{
    if n < s.len() {
        lemma_total_part(s.drop_last(), n);
        assert(s.drop_last().take(n) =~= s.take(n));
    } else {
        assert(s.take(n) =~= s);
        if n > 0 {
            lemma_total_part(s.drop_last(), n - 1);
        }
    }
}

/// The samples in ascending order.
fn sorted(s: &[u32]) -> (r: Vec<u32>)
    ensures
        r@ == ascending(s@),
{
    let mut out: Vec<u32> = Vec::new();
    let mut i: usize = 0;
    assert(s@.take(0) =~= Seq::empty());
    while i < s.len()
        invariant
            i <= s.len(),
            out@ == ascending(s@.take(i as int)),
            out.len() == i,
        decreases s.len() - i,
    {
        let x: u32 = s[i];
        let mut p: usize = out.len();
        while p > 0 && out[p - 1] > x
            invariant
                p <= out.len(),
                forall|k: int| p <= k < out.len() ==> #[trigger] out@[k] > x,
            decreases p,
        {
            p = p - 1;
        }
        proof {
            let next = s@.take(i + 1);
            assert(next.drop_last() =~= s@.take(i as int));
            assert(next.last() == x);
            lemma_put_in(out@, x, p as int);
            lemma_ascending_len(next);
        }
        out.insert(p, x);
        i = i + 1;
    }
    assert(s@.take(s.len() as int) =~= s@);
    out
}

/// The index of the `p`-th percentile among `n` sorted samples: five of a hundred
/// samples stand at or behind the 95th.
pub fn percentile_idx(n: usize, p: u32) -> (r: usize)
    requires
        n > 0,
        p * n <= usize::MAX,
    ensures
        r == percentile_of(n as int, p as int),
        r < n,
{
    assert(p as usize * n >= 0) by (nonlinear_arith);
    let at: usize = (p as usize * n) / 100;
    if at < n - 1 {
        at
    } else {
        n - 1
    }
}

/// What is printed of the samples; the mean is `sum_us` over `n`.
#[derive(Debug, Clone, Copy, PartialEq, Eq, Structural)]
pub struct Stats {
    pub n: usize,
    pub min_us: u32,
    pub sum_us: u64,
    pub p50_us: u32,
    pub p95_us: u32,
}

impl Stats {
    /// The statistics of the samples.
    pub open spec fn of(s: Seq<u32>) -> Stats {
        if s.len() == 0 {
            Stats { n: 0, min_us: 0, sum_us: 0, p50_us: 0, p95_us: 0 }
        } else {
            Stats {
                n: s.len() as usize,
                min_us: ascending(s)[0],
                sum_us: total(s) as u64,
                p50_us: ascending(s)[percentile_of(s.len() as int, 50)],
                p95_us: ascending(s)[percentile_of(s.len() as int, 95)],
            }
        }
    }

    /// Count, least, sum, median and 95th percentile of the samples.
    pub fn from_blob(blob: &Blob) -> (r: Stats)
        requires
            95 * blob.samples@.len() <= usize::MAX,
            total(blob.samples@) <= u64::MAX,
        ensures
            r == Stats::of(blob.samples@),
    {
        let samples: &[u32] = blob.samples.as_slice();
        let n: usize = samples.len();
        if n == 0 {
            return Stats { n: 0, min_us: 0, sum_us: 0, p50_us: 0, p95_us: 0 };
        }
        let s: Vec<u32> = sorted(samples);
        proof {
            lemma_ascending_len(samples@);
        }
        let mut sum: u64 = 0;
        let mut i: usize = 0;
        assert(samples@.take(0) =~= Seq::empty());
        while i < n
            invariant
                i <= n,
                n == samples.len(),
                total(samples@) <= u64::MAX,
                sum == total(samples@.take(i as int)),
            decreases n - i,
        {
            proof {
                let next = samples@.take(i + 1);
                assert(next.drop_last() =~= samples@.take(i as int));
                assert(next.last() == samples@[i as int]);
                lemma_total_part(samples@, i + 1);
            }
            sum = sum + samples[i] as u64;
            i = i + 1;
        }
        assert(samples@.take(n as int) =~= samples@);
        let p50: usize = percentile_idx(n, 50);
        let p95: usize = percentile_idx(n, 95);
        Stats { n, min_us: s[0], sum_us: sum, p50_us: s[p50], p95_us: s[p95] }
    }
}

/// Order of the figures: the least is not above the median, nor the median above the
/// 95th percentile, and the mean is not below the least.
pub proof fn law_stats_are_ordered(s: Seq<u32>)
    requires
        s.len() > 0,
        total(s) <= u64::MAX,
    ensures
        Stats::of(s).min_us <= Stats::of(s).p50_us <= Stats::of(s).p95_us,
        Stats::of(s).min_us * s.len() <= Stats::of(s).sum_us,
        forall|i: int| 0 <= i < s.len() ==> Stats::of(s).min_us <= #[trigger] s[i],
{
    law_ascending_sorts(s);
    lemma_total_part(s, 0);
    let least = ascending(s)[0];
    assert forall|i: int| 0 <= i < s.len() implies least <= #[trigger] s[i] by {
        broadcast use vstd::seq_lib::group_to_multiset_ensures;

        assert(s.to_multiset().count(s[i]) > 0) by {
            assert(s.contains(s[i]));
        }
        assert(ascending(s).contains(s[i]));
        let k = choose|k: int| 0 <= k < s.len() && ascending(s)[k] == s[i];
        if k > 0 {
            assert(ascending(s)[0] <= ascending(s)[k]);
        }
    }
    lemma_total_floor(s, least as int);
    assert(percentile_of(s.len() as int, 50) <= percentile_of(s.len() as int, 95));
}

proof fn lemma_total_floor(s: Seq<u32>, least: int)
    requires
        forall|i: int| 0 <= i < s.len() ==> least <= #[trigger] s[i],
    ensures
        least * s.len() <= total(s),
    decreases s.len(),
{
    if s.len() > 0 {
        let t = s.drop_last();
        assert forall|i: int| 0 <= i < t.len() implies least <= #[trigger] t[i] by {
            assert(t[i] == s[i]);
        }
        lemma_total_floor(t, least);
        let n = s.len() as int;
        assert(least * n == least * (n - 1) + least) by (nonlinear_arith);
        assert(s[s.len() - 1] >= least);
    }
}

} // verus!
