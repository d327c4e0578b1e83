//! Spreading offset growth over fixed-width time buckets.
//!
//! Two consecutive samples of a partition say how far the offset moved over a
//! span of time. That growth is shared out over the buckets the span touches,
//! in proportion to the time spent in each. The arithmetic here is exact: each
//! [`Share`] records the growth, the time the span spends in one bucket and the
//! length of the span, so the rate a share stands for is
//! `delta * overlap / (span * width)` messages per unit of time.

use vstd::prelude::*;
use vstd::arithmetic::div_mod::{lemma_fundamental_div_mod, lemma_mod_pos_bound, lemma_div_pos_is_pos};
use vstd::arithmetic::mul::{lemma_mul_inequality, lemma_mul_is_commutative};
use crate::polls::Sample;

verus! {

/// The part of one sample pair's growth that falls into one bucket.
#[derive(Clone, Copy, PartialEq, Eq, Structural, Debug)]
pub struct Share {
    /// Index of the bucket.
    pub bucket: usize,
    /// Offset growth over the whole span between the two samples.
    pub delta: i128,
    /// Time the span spends inside the bucket.
    pub overlap: u64,
    /// Length of the span.
    pub span: u64,
}

/// Length of the intersection of the spans `[a, b)` and `[lo, hi)`.
pub open spec fn overlap(a: int, b: int, lo: int, hi: int) -> int {
    let l = if a > lo { a } else { lo };
    let h = if b < hi { b } else { hi };
    if h > l { h - l } else { 0 }
}

/// Where bucket `k` begins, for buckets of `width` laid out from `origin`.
pub open spec fn bucket_start(origin: int, width: int, k: int) -> int {
    origin + k * width
}

/// Time that the span `[a, b)` spends in bucket `k`.
pub open spec fn bucket_overlap(a: int, b: int, origin: int, width: int, k: int) -> int {
    overlap(a, b, bucket_start(origin, width, k), bucket_start(origin, width, k + 1))
}

/// The first bucket a span starting at `a` can touch.
pub open spec fn first_bucket(a: int, origin: int, width: int) -> int {
    if a <= origin { 0 } else { (a - origin) / width }
}

/// One past the last of the `count` buckets that a span ending at `b` touches.
pub open spec fn end_bucket(b: int, origin: int, width: int, count: int) -> int {
    if b <= origin {
        0
    } else {
        let e = (b - origin - 1) / width + 1;
        if e < count { e } else { count }
    }
}

/// The share of bucket `k` in the growth between samples `a` and `b`.
pub open spec fn share_of(a: Sample, b: Sample, origin: u64, width: u64, k: int) -> Share {
    Share {
        bucket: k as usize,
        delta: (b.offset - a.offset) as i128,
        overlap: bucket_overlap(a.at as int, b.at as int, origin as int, width as int, k) as u64,
        span: (b.at - a.at) as u64,
    }
}

/// The shares of one sample pair, bucket by bucket in rising order: one for
/// each of the `count` buckets in which the span spends time.
pub open spec fn pair_shares(a: Sample, b: Sample, origin: u64, width: u64, count: usize) -> Seq<Share> {
    let lo = first_bucket(a.at as int, origin as int, width as int);
    let hi = end_bucket(b.at as int, origin as int, width as int, count as int);
    if a.at < b.at && lo < hi {
        Seq::new((hi - lo) as nat, |j: int| share_of(a, b, origin, width, lo + j))
    } else {
        Seq::empty()
    }
}

/// The shares of a whole history: those of each pair of consecutive samples,
/// pair after pair.
pub open spec fn history_shares(polls: Seq<Sample>, origin: u64, width: u64, count: usize) -> Seq<Share>
    decreases polls.len(),
{
    if polls.len() < 2 {
        Seq::empty()
    } else {
        history_shares(polls.drop_last(), origin, width, count) + pair_shares(
            polls[polls.len() - 2],
            polls[polls.len() - 1],
            origin,
            width,
            count,
        )
    }
}

/// Sum of the overlaps of a list of shares.
pub open spec fn shared_time(shares: Seq<Share>) -> int
    decreases shares.len(),
{
    if shares.len() == 0 {
        0
    } else {
        shared_time(shares.drop_last()) + shares.last().overlap
    }
}

proof fn lemma_floor(x: int, w: int)
    requires
        x >= 0,
        w > 0,
    ensures
        x / w >= 0,
        (x / w) * w <= x,
        x < (x / w) * w + w,
{
    lemma_fundamental_div_mod(x, w);
    lemma_mod_pos_bound(x, w);
    lemma_div_pos_is_pos(x, w);
    lemma_mul_is_commutative(w, x / w);
}

proof fn lemma_next_start(origin: int, width: int, k: int)
    ensures
        bucket_start(origin, width, k + 1) == bucket_start(origin, width, k) + width,
{
    assert((k + 1) * width == k * width + width) by (nonlinear_arith);
}

proof fn lemma_start_ordered(origin: int, width: int, j: int, k: int)
    requires
        width > 0,
        j <= k,
    ensures
        bucket_start(origin, width, j) <= bucket_start(origin, width, k),
{
    lemma_mul_inequality(j, k, width);
}

/// The buckets that a span touches are exactly those from its first bucket up
/// to its end bucket: in each of them it spends time, in no other.
pub proof fn lemma_touched_buckets(a: int, b: int, origin: int, width: int, count: int, k: int)
    requires
        width > 0,
        a < b,
        0 <= k < count,
    ensures
        bucket_overlap(a, b, origin, width, k) > 0 <==> first_bucket(a, origin, width) <= k
            < end_bucket(b, origin, width, count),
        0 <= bucket_overlap(a, b, origin, width, k) <= width,
        bucket_overlap(a, b, origin, width, k) <= b - a,
{
    let lo = bucket_start(origin, width, k);
    let hi = bucket_start(origin, width, k + 1);
    lemma_next_start(origin, width, k);
    let first = first_bucket(a, origin, width);
    let end = end_bucket(b, origin, width, count);
    // a < hi  <==>  first <= k
    if a <= origin {
        lemma_start_ordered(origin, width, 0, k);
        assert(bucket_start(origin, width, 0) == origin);
    } else {
        lemma_floor(a - origin, width);
        let f = (a - origin) / width;
        if f <= k {
            lemma_start_ordered(origin, width, f, k);
        } else {
            lemma_start_ordered(origin, width, k + 1, f);
        }
    }
    // lo < b  <==>  k < end
    if b <= origin {
        lemma_start_ordered(origin, width, 0, k);
        assert(bucket_start(origin, width, 0) == origin);
    } else {
        lemma_floor(b - origin - 1, width);
        let e = (b - origin - 1) / width + 1;
        lemma_next_start(origin, width, e - 1);
        if k < e {
            lemma_start_ordered(origin, width, k, e - 1);
        } else {
            lemma_start_ordered(origin, width, e, k);
        }
    }
}

/// Every share of a pair carries the pair's growth and span, lies in one of
/// the `count` buckets and stands for a positive stretch of time.
pub proof fn lemma_pair_shares(a: Sample, b: Sample, origin: u64, width: u64, count: usize)
    requires
        width > 0,
    ensures
        forall|i: int|
            0 <= i < pair_shares(a, b, origin, width, count).len() ==> {
                let s = #[trigger] pair_shares(a, b, origin, width, count)[i];
                &&& a.at < b.at
                &&& s.delta == b.offset - a.offset
                &&& s.span == b.at - a.at
                &&& s.span > 0
                &&& 0 < s.overlap <= s.span
                &&& s.overlap <= width
                &&& s.bucket < count
                &&& s.bucket == first_bucket(a.at as int, origin as int, width as int) + i
                &&& s.overlap == bucket_overlap(
                    a.at as int,
                    b.at as int,
                    origin as int,
                    width as int,
                    s.bucket as int,
                )
            },
{
    let shares = pair_shares(a, b, origin, width, count);
    let lo = first_bucket(a.at as int, origin as int, width as int);
    let hi = end_bucket(b.at as int, origin as int, width as int, count as int);
    assert forall|i: int| 0 <= i < shares.len() implies {
        let s = #[trigger] shares[i];
        &&& a.at < b.at
        &&& s.delta == b.offset - a.offset
        &&& s.span == b.at - a.at
        &&& s.span > 0
        &&& 0 < s.overlap <= s.span
        &&& s.overlap <= width
        &&& s.bucket < count
        &&& s.bucket == lo + i
        &&& s.overlap == bucket_overlap(a.at as int, b.at as int, origin as int, width as int, s.bucket as int)
    } by {
        let k = lo + i;
        if a.at > origin {
            lemma_floor(a.at - origin, width as int);
        }
        assert(0 <= k < count);
        lemma_touched_buckets(a.at as int, b.at as int, origin as int, width as int, count as int, k);
        assert(shares[i] == share_of(a, b, origin, width, k));
    }
}

/// Nothing of a pair's span is lost or counted twice: when the span lies
/// within the `count` buckets, the overlaps of its shares add up to the span.
pub proof fn lemma_pair_mass(a: Sample, b: Sample, origin: u64, width: u64, count: usize)
    requires
        width > 0,
        origin <= a.at < b.at,
        b.at <= origin + count * width,
    ensures
        shared_time(pair_shares(a, b, origin, width, count)) == b.at - a.at,
{
    let shares = pair_shares(a, b, origin, width, count);
    let lo = first_bucket(a.at as int, origin as int, width as int);
    let hi = end_bucket(b.at as int, origin as int, width as int, count as int);
    let o = origin as int;
    let w = width as int;
    // The span starts in bucket `lo` and ends no later than bucket `hi` does.
    if a.at > origin {
        lemma_floor(a.at - origin, w);
    }
    assert(bucket_start(o, w, lo) <= a.at < bucket_start(o, w, lo + 1)) by {
        lemma_next_start(o, w, lo);
    }
    lemma_floor(b.at - origin - 1, w);
    let e = (b.at - origin - 1) / w + 1;
    lemma_next_start(o, w, e - 1);
    assert(e <= count) by {
        if e > count {
            lemma_start_ordered(o, w, count as int, e - 1);
        }
    }
    assert(hi == e);
    assert(bucket_start(o, w, hi - 1) < b.at <= bucket_start(o, w, hi));
    assert(lo < hi) by {
        if lo >= hi {
            lemma_start_ordered(o, w, hi, lo);
        }
    }
    lemma_pair_shares(a, b, origin, width, count);
    lemma_prefix_mass(a, b, origin, width, count, (hi - lo) as nat);
    assert(shares.take(hi - lo) =~= shares);
}

proof fn lemma_prefix_mass(a: Sample, b: Sample, origin: u64, width: u64, count: usize, m: nat)
    requires
        width > 0,
        a.at < b.at,
        1 <= m <= pair_shares(a, b, origin, width, count).len(),
        bucket_start(origin as int, width as int, first_bucket(a.at as int, origin as int, width as int))
            <= a.at,
    ensures
        ({
            let lo = first_bucket(a.at as int, origin as int, width as int);
            let edge = bucket_start(origin as int, width as int, lo + m);
            shared_time(pair_shares(a, b, origin, width, count).take(m as int)) == (if b.at < edge {
                b.at as int
            } else {
                edge
            }) - a.at
        }),
    decreases m,
{
    let shares = pair_shares(a, b, origin, width, count);
    let lo = first_bucket(a.at as int, origin as int, width as int);
    let hi = end_bucket(b.at as int, origin as int, width as int, count as int);
    let o = origin as int;
    let w = width as int;
    let k = lo + m - 1;
    let cur = shares.take(m as int);
    assert(cur.drop_last() =~= shares.take(m - 1));
    assert(cur.last() == shares[m - 1]);
    lemma_pair_shares(a, b, origin, width, count);
    lemma_next_start(o, w, k);
    assert(shares[m - 1].overlap == bucket_overlap(a.at as int, b.at as int, o, w, k));
    assert(shared_time(cur) == shared_time(shares.take(m - 1)) + shares[m - 1].overlap);
    if m == 1 {
        assert(shares.take(0) =~= Seq::<Share>::empty());
        assert(shared_time(shares.take(0)) == 0);
    } else {
        lemma_prefix_mass(a, b, origin, width, count, (m - 1) as nat);
        // Bucket `k` lies before the end bucket, so it begins before `b`.
        lemma_floor(b.at - origin - 1, w);
        let e = (b.at - origin - 1) / w + 1;
        assert(k < hi && hi <= e);
        lemma_start_ordered(o, w, k, e - 1);
        lemma_start_ordered(o, w, lo + 1, k);
        lemma_next_start(o, w, lo);
        if a.at > origin {
            lemma_floor(a.at - origin, w);
        } else {
            assert(bucket_start(o, w, 0) == o);
        }
        assert(a.at < bucket_start(o, w, k));
        assert(bucket_start(o, w, k) < b.at);
    }
}

/// Appends the shares of the pair `a`, `b` over `count` buckets of `width`
/// laid out from `origin`.
pub fn push_pair_shares(out: &mut Vec<Share>, a: Sample, b: Sample, origin: u64, width: u64, count: usize)
    requires
        width > 0,
        a.at < b.at,
        origin + count * width <= u64::MAX,
    ensures
        final(out)@ == old(out)@ + pair_shares(a, b, origin, width, count),
{
    let ghost before = out@;
    let ghost want = pair_shares(a, b, origin, width, count);
    let ghost lo = first_bucket(a.at as int, origin as int, width as int);
    let ghost hi = end_bucket(b.at as int, origin as int, width as int, count as int);
    let ghost o = origin as int;
    let ghost w = width as int;
    if b.at <= origin || count == 0 {
        proof {
            if a.at > origin {
                lemma_floor(a.at - origin, w);
            }
            assert(before + want =~= before);
        }
        return ;
    }
    let first: u64 = if a.at <= origin { 0 } else { (a.at - origin) / width };
    let reach: u64 = (b.at - origin - 1) / width + 1;
    let end: u64 = if reach < count as u64 { reach } else { count as u64 };
    proof {
        lemma_floor(b.at - origin - 1, w);
        if a.at > origin {
            lemma_floor(a.at - origin, w);
        }
        assert(first == lo && end == hi);
    }
    if first >= end {
        proof {
            assert(before + want =~= before);
        }
        return ;
    }
    proof {
        lemma_start_ordered(o, w, lo, count as int);
        lemma_mul_inequality(lo, count as int, w);
    }
    let delta: i128 = b.offset as i128 - a.offset as i128;
    let span: u64 = b.at - a.at;
    let mut k: u64 = first;
    let mut start: u64 = origin + first * width;
    while k < end
        invariant
            width > 0,
            a.at < b.at,
            origin + count * width <= u64::MAX,
            first == lo,
            end == hi,
            lo == first_bucket(a.at as int, origin as int, width as int),
            hi == end_bucket(b.at as int, origin as int, width as int, count as int),
            lo <= k <= hi,
            hi <= count,
            lo < hi,
            want == pair_shares(a, b, origin, width, count),
            want.len() == hi - lo,
            start == bucket_start(origin as int, width as int, k as int),
            delta == b.offset - a.offset,
            span == b.at - a.at,
            out@ == before + want.take(k - lo),
        decreases end - k,
    {
        proof {
            lemma_next_start(origin as int, width as int, k as int);
            lemma_start_ordered(origin as int, width as int, k + 1, count as int);
            lemma_touched_buckets(
                a.at as int,
                b.at as int,
                origin as int,
                width as int,
                count as int,
                k as int,
            );
        }
        let stop: u64 = start + width;
        let from: u64 = if a.at > start { a.at } else { start };
        let to: u64 = if b.at < stop { b.at } else { stop };
        let share = Share { bucket: k as usize, delta, overlap: to - from, span };
        out.push(share);
        proof {
            assert(want[k - lo] == share_of(a, b, origin, width, k as int));
            assert(want.take(k - lo + 1) =~= want.take(k - lo).push(share));
        }
        start = stop;
        k = k + 1;
    }
    proof {
        assert(want.take(hi - lo) =~= want);
    }
}

/// Appends the shares of every pair of consecutive samples in `polls`.
pub fn push_history_shares(out: &mut Vec<Share>, polls: &Vec<Sample>, origin: u64, width: u64, count: usize)
    requires
        width > 0,
        crate::polls::increasing(polls@),
        origin + count * width <= u64::MAX,
    ensures
        final(out)@ == old(out)@ + history_shares(polls@, origin, width, count),
{
    let ghost before = out@;
    let n = polls.len();
    if n < 2 {
        proof {
            assert(before + history_shares(polls@, origin, width, count) =~= before);
        }
        return ;
    }
    let mut i: usize = 1;
    proof {
        assert(history_shares(polls@.take(1), origin, width, count) =~= Seq::<Share>::empty());
        assert(before + Seq::<Share>::empty() =~= before);
    }
    while i < n
        invariant
            width > 0,
            crate::polls::increasing(polls@),
            origin + count * width <= u64::MAX,
            n == polls@.len(),
            1 <= i <= n,
            out@ == before + history_shares(polls@.take(i as int), origin, width, count),
        decreases n - i,
    {
        let ghost mid = out@;
        push_pair_shares(out, polls[i - 1], polls[i], origin, width, count);
        proof {
            let cur = polls@.take(i + 1);
            assert(cur.drop_last() =~= polls@.take(i as int));
            assert(cur[cur.len() - 2] == polls@[i - 1]);
            assert(cur[cur.len() - 1] == polls@[i as int]);
            assert(out@ =~= before + history_shares(cur, origin, width, count));
        }
        i = i + 1;
    }
    proof {
        assert(polls@.take(n as int) =~= polls@);
    }
}


/// Growth that never goes down is shared out in parts that are never
/// negative: if the offsets of a history in time order never go down, every
/// one of its shares carries a growth of zero or more over a positive span,
/// for a positive stretch of time in one of the `count` buckets.
pub proof fn lemma_shares_nonnegative(polls: Seq<Sample>, origin: u64, width: u64, count: usize)
    requires
        width > 0,
        crate::polls::monotone(polls),
    ensures
        forall|i: int|
            0 <= i < history_shares(polls, origin, width, count).len() ==> {
                let s = #[trigger] history_shares(polls, origin, width, count)[i];
                s.delta >= 0 && s.overlap > 0 && s.span > 0 && s.bucket < count
            },
    decreases polls.len(),
{
    if polls.len() >= 2 {
        let head = polls.drop_last();
        let a = polls[polls.len() - 2];
        let b = polls[polls.len() - 1];
        assert(crate::polls::monotone(head)) by {
            assert forall|i: int, j: int| 0 <= i < j < head.len() implies head[i].offset
                <= head[j].offset by {
                assert(head[i] == polls[i] && head[j] == polls[j]);
            }
        }
        lemma_shares_nonnegative(head, origin, width, count);
        lemma_pair_shares(a, b, origin, width, count);
        let first = history_shares(head, origin, width, count);
        let second = pair_shares(a, b, origin, width, count);
        let all = history_shares(polls, origin, width, count);
        assert(all == first + second);
        assert forall|i: int| 0 <= i < all.len() implies {
            let s = #[trigger] all[i];
            s.delta >= 0 && s.overlap > 0 && s.span > 0 && s.bucket < count
        } by {
            if i < first.len() {
                assert(all[i] == first[i]);
            } else {
                assert(all[i] == second[i - first.len()]);
            }
        }
    }
}

} // verus!
