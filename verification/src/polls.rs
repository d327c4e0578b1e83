//! One partition's offset history: samples ordered by the time they were taken.
//!
//! A history behaves as an ordered map from time to offset. It is kept as a
//! vector sorted by strictly increasing time, so the latest sample is the last
//! element and a sample taken at an already recorded time replaces the old one.

use vstd::prelude::*;

verus! {

/// A high-watermark reading: the offset seen at a point in time.
///
/// Times are nanoseconds since an epoch that the caller fixes once.
#[derive(Clone, Copy, PartialEq, Eq, Structural, Debug)]
pub struct Sample {
    pub at: u64,
    pub offset: i64,
}

/// Times are strictly increasing along the sequence.
pub open spec fn increasing(polls: Seq<Sample>) -> bool {
    forall|i: int, j: int| 0 <= i < j < polls.len() ==> polls[i].at < polls[j].at
}

/// Offsets never go down along the sequence.
pub open spec fn monotone(polls: Seq<Sample>) -> bool {
    forall|i: int, j: int| 0 <= i < j < polls.len() ==> polls[i].offset <= polls[j].offset
}

/// The sample with the greatest time, if any.
pub open spec fn latest(polls: Seq<Sample>) -> Option<Sample> {
    if polls.len() == 0 {
        None
    } else {
        Some(polls.last())
    }
}

/// The history after recording `s`: `s` takes its place by time, replacing a
/// sample taken at the same time.
pub open spec fn put(polls: Seq<Sample>, s: Sample) -> Seq<Sample>
    decreases polls.len(),
{
    if polls.len() == 0 {
        seq![s]
    } else if polls.last().at < s.at {
        polls.push(s)
    } else if polls.last().at == s.at {
        polls.drop_last().push(s)
    } else {
        put(polls.drop_last(), s).push(polls.last())
    }
}

/// How many leading samples were taken before `cutoff`.
pub open spec fn stale(polls: Seq<Sample>, cutoff: u64) -> nat
    decreases polls.len(),
{
    if polls.len() == 0 || polls[0].at >= cutoff {
        0
    } else {
        1 + stale(polls.skip(1), cutoff)
    }
}

/// The history without its leading samples taken before `cutoff`.
pub open spec fn retained(polls: Seq<Sample>, cutoff: u64) -> Seq<Sample> {
    polls.skip(stale(polls, cutoff) as int)
}

/// Recording a sample keeps the times strictly increasing, keeps every sample
/// taken at another time, and holds `s` itself.
pub proof fn lemma_put_increasing(polls: Seq<Sample>, s: Sample)
    requires
        increasing(polls),
    ensures
        increasing(put(polls, s)),
        put(polls, s).contains(s),
        forall|x: Sample|
            #![trigger put(polls, s).contains(x)]
            #![trigger polls.contains(x)]
            x.at != s.at ==> (put(polls, s).contains(x) <==> polls.contains(x)),
        forall|x: Sample| #[trigger] put(polls, s).contains(x) && x.at == s.at ==> x == s,
        polls.len() <= put(polls, s).len() <= polls.len() + 1,
        put(polls, s).len() > 0,
        polls.len() > 0 ==> put(polls, s).last().at >= polls.last().at,
        put(polls, s).last().at >= s.at,
    decreases polls.len(),
{
    let out = put(polls, s);
    if polls.len() == 0 {
        assert(out[0] == s);
    } else if polls.last().at < s.at {
        assert(out[out.len() - 1] == s);
        assert forall|x: Sample| x.at != s.at implies (out.contains(x) <==> polls.contains(x)) by {
            if out.contains(x) {
                let i = choose|i: int| 0 <= i < out.len() && out[i] == x;
                assert(polls[i] == x);
            }
            if polls.contains(x) {
                let i = choose|i: int| 0 <= i < polls.len() && polls[i] == x;
                assert(out[i] == x);
            }
        }
    } else if polls.last().at == s.at {
        let head = polls.drop_last();
        assert(out[out.len() - 1] == s);
        assert forall|x: Sample| x.at != s.at implies (out.contains(x) <==> polls.contains(x)) by {
            if out.contains(x) {
                let i = choose|i: int| 0 <= i < out.len() && out[i] == x;
                assert(polls[i] == x);
            }
            if polls.contains(x) {
                let i = choose|i: int| 0 <= i < polls.len() && polls[i] == x;
                assert(out[i] == x);
            }
        }
        assert forall|x: Sample| out.contains(x) && x.at == s.at implies x == s by {
            let i = choose|i: int| 0 <= i < out.len() && out[i] == x;
            if i < out.len() - 1 {
                assert(polls[i].at < polls[polls.len() - 1].at);
            }
        }
    } else {
        let head = polls.drop_last();
        let last = polls.last();
        assert(increasing(head)) by {
            assert forall|i: int, j: int| 0 <= i < j < head.len() implies head[i].at < head[j].at by {
                assert(head[i] == polls[i] && head[j] == polls[j]);
            }
        }
        lemma_put_increasing(head, s);
        let mid = put(head, s);
        assert(out == mid.push(last));
        assert forall|i: int| 0 <= i < mid.len() implies (#[trigger] mid[i]).at < last.at by {
            assert(mid.contains(mid[i]));
            if mid[i].at != s.at {
                assert(head.contains(mid[i]));
                let k = choose|k: int| 0 <= k < head.len() && head[k] == mid[i];
                assert(polls[k].at < polls[polls.len() - 1].at);
            }
        }
        assert forall|i: int, j: int| 0 <= i < j < out.len() implies out[i].at < out[j].at by {
            if j < mid.len() {
                assert(out[i] == mid[i] && out[j] == mid[j]);
            } else {
                assert(out[i] == mid[i]);
            }
        }
        let w = choose|w: int| 0 <= w < mid.len() && mid[w] == s;
        assert(out[w] == s);
        assert forall|x: Sample| x.at != s.at implies (out.contains(x) <==> polls.contains(x)) by {
            if out.contains(x) {
                let i = choose|i: int| 0 <= i < out.len() && out[i] == x;
                if i < mid.len() {
                    assert(mid[i] == x);
                    assert(mid.contains(x));
                    let k = choose|k: int| 0 <= k < head.len() && head[k] == x;
                    assert(polls[k] == x);
                } else {
                    assert(polls[polls.len() - 1] == x);
                }
            }
            if polls.contains(x) {
                let i = choose|i: int| 0 <= i < polls.len() && polls[i] == x;
                if i < head.len() {
                    assert(head[i] == x);
                    assert(head.contains(x));
                    let k = choose|k: int| 0 <= k < mid.len() && mid[k] == x;
                    assert(out[k] == x);
                } else {
                    assert(out[out.len() - 1] == x);
                }
            }
        }
        assert forall|x: Sample| out.contains(x) && x.at == s.at implies x == s by {
            let i = choose|i: int| 0 <= i < out.len() && out[i] == x;
            if i < mid.len() {
                assert(mid[i] == x);
                assert(mid.contains(x));
            }
        }
    }
}

/// Recording samples in time order keeps the offsets from going down: if the
/// sample is not older than the latest one and its offset is not below the
/// latest offset, a monotone history stays monotone.
pub proof fn lemma_put_monotone(polls: Seq<Sample>, s: Sample)
    requires
        increasing(polls),
        monotone(polls),
        latest(polls) matches Some(l) ==> l.at <= s.at && l.offset <= s.offset,
    ensures
        monotone(put(polls, s)),
{
    let out = put(polls, s);
    if polls.len() == 0 {
    } else {
        let n = polls.len() as int;
        assert forall|i: int, j: int| 0 <= i < j < out.len() implies out[i].offset <= out[j].offset by {
            assert(out[i] == polls[i]);
            if j < out.len() - 1 {
                assert(out[j] == polls[j]);
            } else {
                assert(out[j] == s);
                assert(polls[i].offset <= polls[n - 1].offset);
            }
        }
    }
}

/// For a history in time order, what is retained is exactly what was taken at
/// `cutoff` or later.
pub proof fn lemma_retained(polls: Seq<Sample>, cutoff: u64)
    requires
        increasing(polls),
    ensures
        stale(polls, cutoff) <= polls.len(),
        forall|i: int| 0 <= i < stale(polls, cutoff) ==> (#[trigger] polls[i]).at < cutoff,
        forall|i: int| stale(polls, cutoff) <= i < polls.len() ==> (#[trigger] polls[i]).at >= cutoff,
        forall|x: Sample| retained(polls, cutoff).contains(x) <==> polls.contains(x) && x.at >= cutoff,
        increasing(retained(polls, cutoff)),
    decreases polls.len(),
{
    let k = stale(polls, cutoff) as int;
    if polls.len() == 0 || polls[0].at >= cutoff {
        assert forall|i: int| 0 <= i < polls.len() implies (#[trigger] polls[i]).at >= cutoff by {
            if i > 0 {
                assert(polls[0].at < polls[i].at);
            }
        }
        assert(retained(polls, cutoff) =~= polls);
    } else {
        let rest = polls.skip(1);
        assert(increasing(rest)) by {
            assert forall|i: int, j: int| 0 <= i < j < rest.len() implies rest[i].at < rest[j].at by {
                assert(rest[i] == polls[i + 1] && rest[j] == polls[j + 1]);
            }
        }
        lemma_retained(rest, cutoff);
        assert forall|i: int| 0 <= i < k implies (#[trigger] polls[i]).at < cutoff by {
            if i > 0 {
                assert(rest[i - 1] == polls[i]);
            }
        }
        assert forall|i: int| k <= i < polls.len() implies (#[trigger] polls[i]).at >= cutoff by {
            assert(rest[i - 1] == polls[i]);
        }
    }
    let kept = retained(polls, cutoff);
    assert forall|x: Sample| kept.contains(x) <==> polls.contains(x) && x.at >= cutoff by {
        if kept.contains(x) {
            let i = choose|i: int| 0 <= i < kept.len() && kept[i] == x;
            assert(polls[k + i] == x);
        }
        if polls.contains(x) && x.at >= cutoff {
            let i = choose|i: int| 0 <= i < polls.len() && polls[i] == x;
            assert(i >= k);
            assert(kept[i - k] == x);
        }
    }
    assert forall|i: int, j: int| 0 <= i < j < kept.len() implies kept[i].at < kept[j].at by {
        assert(kept[i] == polls[k + i] && kept[j] == polls[k + j]);
    }
}

/// The sample with the greatest time, if any.
pub fn newest(polls: &Vec<Sample>) -> (r: Option<Sample>)
    ensures
        r == latest(polls@),
{
    let n = polls.len();
    if n == 0 {
        None
    } else {
        Some(polls[n - 1])
    }
}

/// Records `s` in the history, at its place by time.
pub fn record(polls: &mut Vec<Sample>, s: Sample)
    requires
        increasing(old(polls)@),
    ensures
        final(polls)@ == put(old(polls)@, s),
        increasing(final(polls)@),
{
    let ghost before = polls@;
    let mut i: usize = polls.len();
    proof {
        assert(before.take(before.len() as int) =~= before);
        assert(before.skip(before.len() as int) =~= Seq::<Sample>::empty());
        assert(put(before, s) + Seq::<Sample>::empty() =~= put(before, s));
    }
    // Walk back over the samples taken after `s`.
    while i > 0 && polls[i - 1].at > s.at
        invariant
            polls@ == before,
            i <= before.len(),
            put(before, s) == put(before.take(i as int), s) + before.skip(i as int),
        decreases i,
    {
        proof {
            let cur = before.take(i as int);
            assert(cur.last() == before[i - 1]);
            assert(cur.drop_last() =~= before.take(i - 1));
            assert(put(cur, s) == put(before.take(i - 1), s).push(before[i - 1]));
            assert(put(before.take(i - 1), s).push(before[i - 1]) + before.skip(i as int)
                =~= put(before.take(i - 1), s) + before.skip(i - 1));
        }
        i = i - 1;
    }
    proof {
        let cur = before.take(i as int);
        if i > 0 {
            assert(cur.last() == before[i - 1]);
        }
    }
    if i > 0 && polls[i - 1].at == s.at {
        polls[i - 1] = s;
        proof {
            let cur = before.take(i as int);
            assert(polls@ =~= cur.drop_last().push(s) + before.skip(i as int));
        }
    } else {
        polls.insert(i, s);
        proof {
            let cur = before.take(i as int);
            assert(put(cur, s) =~= cur.push(s));
            assert(polls@ =~= cur.push(s) + before.skip(i as int));
        }
    }
    proof {
        lemma_put_increasing(before, s);
    }
}

/// Drops the leading samples taken before `cutoff`.
pub fn discard(polls: &mut Vec<Sample>, cutoff: u64)
    ensures
        final(polls)@ == retained(old(polls)@, cutoff),
{
    let ghost before = polls@;
    let n = polls.len();
    let mut k: usize = 0;
    proof {
        assert(before.skip(0) =~= before);
    }
    while k < n && polls[k].at < cutoff
        invariant
            polls@ == before,
            n == before.len(),
            k <= n,
            stale(before, cutoff) == k + stale(before.skip(k as int), cutoff),
        decreases n - k,
    {
        proof {
            let rest = before.skip(k as int);
            assert(rest[0] == before[k as int]);
            assert(rest.skip(1) =~= before.skip(k + 1));
        }
        k = k + 1;
    }
    proof {
        let rest = before.skip(k as int);
        if k < n {
            assert(rest[0] == before[k as int]);
        }
        assert(stale(rest, cutoff) == 0);
    }
    if k > 0 {
        let tail = polls.split_off(k);
        *polls = tail;
    }
    proof {
        assert(polls@ =~= before.skip(k as int));
    }
}

} // verus!
