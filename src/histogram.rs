use vstd::prelude::*;
use vstd::arithmetic::power2::{pow2, lemma_pow2_unfold, lemma_pow2_adds, lemma_pow2_pos, lemma2_to64};

verus! {

/// Magnitude slots of the histogram.
pub const SLOTS: usize = 64;

/// Linear sub-slots within each magnitude slot.
pub const SUB_SLOTS: usize = 16;

/// Buckets in all: one per (slot, sub-slot).
pub const BUCKETS: usize = 1024;

/// The first slot that the tail report looks at.
pub const REPORT_FIRST_SLOT: usize = 10;

/// The least latency that the histogram can bucket.
pub const MIN_LATENCY: u64 = 17;

/// The largest latency that the histogram can bucket (2^63).
pub const MAX_LATENCY: u64 = 0x8000_0000_0000_0000;

/// `slot` is the number of bits needed for `latency - 1`, that is the
/// exponent of the least power of two at or above `latency`, and `sub` holds
/// the four bits below the leading bit of `latency` at that scale.
pub open spec fn is_bucket(latency: int, slot: int, sub: int) -> bool {
    5 <= slot < SLOTS && 0 <= sub < SUB_SLOTS
        && pow2((slot - 1) as nat) < latency <= pow2(slot as nat)
        && sub == (latency / pow2((slot - 5) as nat) as int) % 16
}

/// The smallest latency that a bucket stands for.
pub open spec fn bucket_floor(slot: int, sub: int) -> int {
    pow2((slot - 1) as nat) + sub * pow2((slot - 5) as nat)
}

/// The magnitude slot and sub-slot of a latency.
pub fn bucket_of(latency: u64) -> (r: (usize, usize))
    requires
        MIN_LATENCY <= latency <= MAX_LATENCY,
    ensures
        is_bucket(latency as int, r.0 as int, r.1 as int),
{
    let mut k: usize = 0;
    let mut p: u64 = 1;
    proof {
        lemma2_to64();
        vstd::arithmetic::power2::lemma2_to64_rest();
    }
    while p < latency
        invariant
            MIN_LATENCY <= latency <= MAX_LATENCY,
            p as nat == pow2(k as nat),
            k == 0 || pow2((k - 1) as nat) < latency,
            p >= 1,
            k <= 63,
            pow2(63) == MAX_LATENCY,
        decreases 64 - k,
    {
        proof {
            lemma_pow2_unfold((k + 1) as nat);
            if k == 63 {
                assert(p == MAX_LATENCY);
            }
        }
        p = p * 2;
        k = k + 1;
    }
    proof {
        lemma2_to64();
        vstd::arithmetic::power2::lemma2_to64_rest();
        if k < 5 {
            assert(pow2(k as nat) <= 16) by {
                if k == 0 {} else if k == 1 {} else if k == 2 {} else if k == 3 {} else {}
            }
        }
        lemma_pow2_adds((k - 5) as nat, 5);
        assert(((k - 5) as nat) + 5 == k as nat);
        if k == 64 {
            assert(false);
        }
    }
    let width = p / 32;
    let sub = ((latency / width) % 16) as usize;
    (k, sub)
}

/// A bucket pins a latency down to one sixteenth of its octave: the latency
/// lies in `[floor, floor + width)` where `width` is the sub-slot's width.
/// An exact power of two is left out: it lands in sub-slot zero of its own
/// slot, at twice that slot's floor.
pub proof fn lemma_bucket_resolution(latency: int, slot: int, sub: int)
    requires
        is_bucket(latency, slot, sub),
        latency < pow2(slot as nat),
    ensures
        bucket_floor(slot, sub) <= latency < bucket_floor(slot, sub) + pow2((slot - 5) as nat),
{
    let w = pow2((slot - 5) as nat) as int;
    lemma_pow2_pos((slot - 5) as nat);
    lemma2_to64();
    lemma_pow2_adds((slot - 5) as nat, 4);
    lemma_pow2_adds((slot - 5) as nat, 5);
    assert(((slot - 5) as nat) + 4 == (slot - 1) as nat);
    assert(((slot - 5) as nat) + 5 == slot as nat);
    assert(pow2((slot - 1) as nat) == 16 * w);
    assert(pow2(slot as nat) == 32 * w);
    let q = latency / w;
    assert(latency == q * w + latency % w && 0 <= latency % w < w) by {
        vstd::arithmetic::div_mod::lemma_fundamental_div_mod(latency, w);
    }
    assert(16 <= q < 32) by (nonlinear_arith)
        requires
            w > 0,
            16 * w < latency,
            latency < 32 * w,
            latency == q * w + latency % w,
            0 <= latency % w < w,
    ;
    assert(sub == q - 16);
    assert(bucket_floor(slot, sub) == q * w) by (nonlinear_arith)
        requires
            bucket_floor(slot, sub) == 16 * w + sub * w,
            sub == q - 16,
    ;
    assert((q + 1) * w == q * w + w) by (nonlinear_arith);
}

/// The sum of `c[lo..hi]`.
pub open spec fn sum_range(c: Seq<u64>, lo: int, hi: int) -> int
    decreases hi - lo,
{
    if hi <= lo {
        0
    } else {
        sum_range(c, lo, hi - 1) + c[hi - 1]
    }
}

/// A sum over a range splits at any point inside it.
pub proof fn lemma_sum_split(c: Seq<u64>, lo: int, mid: int, hi: int)
    requires
        lo <= mid <= hi,
    ensures
        sum_range(c, lo, hi) == sum_range(c, lo, mid) + sum_range(c, mid, hi),
    decreases hi - mid,
{
    if hi > mid {
        lemma_sum_split(c, lo, mid, hi - 1);
    }
}

/// Sums of counts are never negative.
pub proof fn lemma_sum_nonneg(c: Seq<u64>, lo: int, hi: int)
    ensures
        sum_range(c, lo, hi) >= 0,
    decreases hi - lo,
{
    if hi > lo {
        lemma_sum_nonneg(c, lo, hi - 1);
    }
}

/// Raising one entry inside the range raises the sum by as much.
pub proof fn lemma_sum_update(c: Seq<u64>, lo: int, hi: int, i: int, v: u64)
    requires
        0 <= lo <= i < hi,
        hi <= c.len(),
    ensures
        sum_range(c.update(i, v), lo, hi) == sum_range(c, lo, hi) - c[i] + v,
    decreases hi - lo,
{
    if hi - 1 > i {
        lemma_sum_update(c, lo, hi - 1, i, v);
        assert(c.update(i, v)[hi - 1] == c[hi - 1]);
    } else {
        lemma_sum_unchanged(c, lo, hi - 1, i, v);
    }
}

proof fn lemma_sum_unchanged(c: Seq<u64>, lo: int, hi: int, i: int, v: u64)
    requires
        0 <= lo,
        hi <= i < c.len(),
    ensures
        sum_range(c.update(i, v), lo, hi) == sum_range(c, lo, hi),
    decreases hi - lo,
{
    if hi > lo {
        lemma_sum_unchanged(c, lo, hi - 1, i, v);
        assert(c.update(i, v)[hi - 1] == c[hi - 1]);
    }
}

/// The latency printed for bucket `pos` (slot `pos / 16`, sub-slot `pos % 16`).
pub open spec fn report_latency(pos: int) -> int {
    bucket_floor(pos / 16, pos % 16)
}

/// The samples in buckets above `pos`.
pub open spec fn samples_above(c: Seq<u64>, pos: int) -> int {
    sum_range(c, pos + 1, BUCKETS as int)
}

/// The tail report over the buckets `lo..hi`, lowest first: for each bucket
/// where some but not all samples lie above it, its latency and the number of
/// samples above it.
pub open spec fn report_between(c: Seq<u64>, total: int, lo: int, hi: int) -> Seq<(u64, u64)>
    decreases hi - lo,
{
    if hi <= lo {
        seq![]
    } else {
        let rest = report_between(c, total, lo, hi - 1);
        let above = samples_above(c, hi - 1);
        if 0 < above < total {
            rest.push((report_latency(hi - 1) as u64, above as u64))
        } else {
            rest
        }
    }
}

/// Latency counts in 64 magnitude slots of 16 linear sub-slots each.
pub struct Histogram {
    counts: Vec<u64>,
    total: u64,
}

impl Histogram {
    /// The count of each bucket, bucket `slot * 16 + sub` for each slot and sub-slot.
    pub closed spec fn counts(&self) -> Seq<u64> {
        self.counts@
    }

    /// The number of samples recorded.
    pub closed spec fn samples(&self) -> int {
        self.total as int
    }

    pub closed spec fn wf(&self) -> bool {
        self.counts@.len() == BUCKETS && self.total == sum_range(self.counts@, 0, BUCKETS as int)
    }

    /// An empty histogram.
    pub fn new() -> (h: Histogram)
        ensures
            h.wf(),
            h.counts() == Seq::new(BUCKETS as nat, |i: int| 0u64),
            h.counts().len() == BUCKETS,
            h.samples() == 0,
    {
        let mut counts: Vec<u64> = Vec::new();
        let mut i: usize = 0;
        while i < BUCKETS
            invariant
                i <= BUCKETS,
                counts@ == Seq::new(i as nat, |j: int| 0u64),
                sum_range(counts@, 0, i as int) == 0,
            decreases BUCKETS - i,
        {
            counts.push(0);
            proof {
                assert(counts@.subrange(0, i as int) =~= Seq::new(i as nat, |j: int| 0u64));
                lemma_sum_prefix_stable(counts@, i as int);
            }
            i += 1;
            assert(counts@ =~= Seq::new(i as nat, |j: int| 0u64));
        }
        Histogram { counts, total: 0 }
    }

    /// Records one latency sample in its bucket.
    pub fn record(&mut self, latency: u64)
        requires
            old(self).wf(),
            MIN_LATENCY <= latency <= MAX_LATENCY,
            old(self).samples() < u64::MAX,
        ensures
            final(self).wf(),
            final(self).samples() == old(self).samples() + 1,
            exists|slot: int, sub: int| is_bucket(latency as int, slot, sub)
                && final(self).counts() == old(self).counts().update(
                    slot * 16 + sub, (old(self).counts()[slot * 16 + sub] + 1) as u64),
    {
        let (slot, sub) = bucket_of(latency);
        let pos = slot * 16 + sub;
        proof {
            lemma_sum_split(self.counts@, 0, pos as int, BUCKETS as int);
            lemma_sum_split(self.counts@, pos as int, pos + 1, BUCKETS as int);
            lemma_sum_nonneg(self.counts@, 0, pos as int);
            lemma_sum_nonneg(self.counts@, pos + 1, BUCKETS as int);
            assert(sum_range(self.counts@, pos as int, pos as int) == 0);
            assert(sum_range(self.counts@, pos as int, pos + 1) == self.counts@[pos as int]);
        }
        let c = self.counts[pos] + 1;
        proof {
            lemma_sum_update(self.counts@, 0, BUCKETS as int, pos as int, c);
        }
        self.counts.set(pos, c);
        self.total = self.total + 1;
    }

    /// The number of samples in bucket `(slot, sub)`.
    pub fn count(&self, slot: usize, sub: usize) -> (r: u64)
        requires
            self.wf(),
            slot < SLOTS,
            sub < SUB_SLOTS,
        ensures
            r == self.counts()[slot * 16 + sub],
    {
        self.counts[slot * 16 + sub]
    }

    /// The number of samples recorded.
    pub fn total(&self) -> (r: u64)
        ensures
            r == self.samples(),
    {
        self.total
    }

    /// The tail report, lowest latency first: for each bucket of slot ten or
    /// above where some but not all samples lie in higher buckets, the
    /// bucket's latency and the number of samples above it. The fraction
    /// above a bucket is the second number over the total.
    pub fn report(&self) -> (r: Vec<(u64, u64)>)
        requires
            self.wf(),
        ensures
            r@ == report_between(self.counts(), self.samples(), REPORT_FIRST_SLOT * 16, BUCKETS as int),
    {
        let first: usize = REPORT_FIRST_SLOT * 16;
        let mut below: u64 = 0;
        let mut i: usize = 0;
        while i <= first
            invariant
                self.wf(),
                i <= first + 1,
                first == REPORT_FIRST_SLOT * 16,
                below == sum_range(self.counts@, 0, i as int),
            decreases first + 1 - i,
        {
            proof {
                lemma_sum_split(self.counts@, 0, i + 1, BUCKETS as int);
                lemma_sum_nonneg(self.counts@, i + 1, BUCKETS as int);
            }
            below = below + self.counts[i];
            i += 1;
        }
        let mut out: Vec<(u64, u64)> = Vec::new();
        let mut pos: usize = first;
        while pos < BUCKETS
            invariant
                self.wf(),
                first <= pos <= BUCKETS,
                first == REPORT_FIRST_SLOT * 16,
                pos < BUCKETS ==> below == sum_range(self.counts@, 0, pos + 1),
                out@ == report_between(self.counts@, self.total as int, first as int, pos as int),
            decreases BUCKETS - pos,
        {
            proof {
                lemma_sum_split(self.counts@, 0, pos + 1, BUCKETS as int);
                lemma_sum_nonneg(self.counts@, pos + 1, BUCKETS as int);
            }
            let above = self.total - below;
            if 0 < above && above < self.total {
                let slot = pos / 16;
                let sub = pos % 16;
                let latency = floor_of(slot, sub);
                out.push((latency, above));
            }
            if pos + 1 < BUCKETS {
                proof {
                    lemma_sum_split(self.counts@, 0, pos + 2, BUCKETS as int);
                    lemma_sum_nonneg(self.counts@, pos + 2, BUCKETS as int);
                }
                below = below + self.counts[pos + 1];
            }
            pos += 1;
        }
        out
    }
}

proof fn lemma_sum_prefix_stable(c: Seq<u64>, i: int)
    requires
        0 <= i < c.len(),
    ensures
        sum_range(c, 0, i) == sum_range(c.subrange(0, i), 0, i),
    decreases i,
{
    if i > 0 {
        lemma_sum_prefix_stable(c, i - 1);
        lemma_sum_prefix_stable(c.subrange(0, i), i - 1);
        assert(c.subrange(0, i).subrange(0, i - 1) =~= c.subrange(0, i - 1));
    }
}

/// The smallest latency of bucket `(slot, sub)`, for the slots of the report.
fn floor_of(slot: usize, sub: usize) -> (r: u64)
    requires
        REPORT_FIRST_SLOT <= slot < SLOTS,
        sub < SUB_SLOTS,
    ensures
        r == bucket_floor(slot as int, sub as int),
{
    let mut high: u64 = 1;
    let mut k: usize = 0;
    proof {
        lemma2_to64();
        vstd::arithmetic::power2::lemma2_to64_rest();
    }
    while k < slot - 1
        invariant
            k <= slot - 1,
            slot < SLOTS,
            high == pow2(k as nat),
            pow2(62) == 0x4000_0000_0000_0000,
        decreases slot - 1 - k,
    {
        proof {
            lemma_pow2_unfold((k + 1) as nat);
            vstd::arithmetic::power2::lemma_pow2_strictly_increases(k as nat, 62);
        }
        high = high * 2;
        k += 1;
    }
    proof {
        lemma_pow2_adds((slot - 5) as nat, 4);
        assert(((slot - 5) as nat) + 4 == (slot - 1) as nat);
        assert(pow2(4) == 16);
        vstd::arithmetic::power2::lemma_pow2_strictly_increases((slot - 1) as nat, 63);
    }
    let width = high / 16;
    proof {
        assert(width == pow2((slot - 5) as nat)) by (nonlinear_arith)
            requires
                high == pow2((slot - 5) as nat) * 16,
                width == high / 16;
        assert(sub * width <= 15 * width) by (nonlinear_arith)
            requires sub < 16;
    }
    high + (sub as u64) * width
}

} // verus!
