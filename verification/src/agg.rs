//! Summation machinery for the statistics views: sums and counts of ledger
//! entries under a filter, with the lemmas the aggregation loops need.
//!
//! Every aggregate blends open sessions: an open entry contributes its live
//! elapsed time `now - started_at`, a closed one its frozen duration.

use vstd::prelude::*;
use crate::date::SECONDS_PER_DAY;
use crate::store::Store;
use crate::store::TimeEntry;

verus! {

/// The calendar day (days since the epoch) an entry belongs to, by its start.
pub open spec fn entry_day(e: TimeEntry) -> int {
    (e.started_at as int) / (SECONDS_PER_DAY as int)
}

/// The seconds an entry contributes at time `now`.
pub open spec fn entry_seconds(e: TimeEntry, now: int) -> int {
    match e.duration_seconds {
        Some(d) => d as int,
        None => now - e.started_at,
    }
}

/// Sum of `entry_seconds` over the entries satisfying `p`.
pub open spec fn sum_if(s: Seq<TimeEntry>, p: spec_fn(TimeEntry) -> bool, now: int) -> int
    decreases s.len(),
{
    if s.len() == 0 {
        0
    } else {
        sum_if(s.drop_last(), p, now) + if p(s.last()) {
            entry_seconds(s.last(), now)
        } else {
            0int
        }
    }
}

/// How many entries satisfy `p`.
pub open spec fn count_if(s: Seq<TimeEntry>, p: spec_fn(TimeEntry) -> bool) -> int
    decreases s.len(),
{
    if s.len() == 0 {
        0
    } else {
        count_if(s.drop_last(), p) + if p(s.last()) {
            1int
        } else {
            0int
        }
    }
}

/// Extending a prefix by one entry adds exactly that entry's contribution.
pub proof fn lemma_agg_take_succ(s: Seq<TimeEntry>, p: spec_fn(TimeEntry) -> bool, now: int, j: int)
    requires
        0 <= j < s.len(),
    ensures
        sum_if(s.take(j + 1), p, now) == sum_if(s.take(j), p, now) + if p(s[j]) {
            entry_seconds(s[j], now)
        } else {
            0int
        },
        count_if(s.take(j + 1), p) == count_if(s.take(j), p) + if p(s[j]) {
            1int
        } else {
            0int
        },
{
    assert(s.take(j + 1).drop_last() =~= s.take(j));
    assert(s.take(j + 1).last() == s[j]);
}

/// When every filtered entry contributes a non-negative amount, the sum is
/// non-negative.
pub proof fn lemma_sum_nonneg(s: Seq<TimeEntry>, p: spec_fn(TimeEntry) -> bool, now: int)
    requires
        forall|j: int| 0 <= j < s.len() && p(#[trigger] s[j]) ==> entry_seconds(s[j], now) >= 0,
    ensures
        sum_if(s, p, now) >= 0,
    decreases s.len(),
{
    if s.len() > 0 {
        assert(forall|j: int| 0 <= j < s.len() - 1 ==> s.drop_last()[j] == s[j]);
        lemma_sum_nonneg(s.drop_last(), p, now);
    }
}

/// A narrower filter never sums to more, when contributions under the wider
/// filter are non-negative.
pub proof fn lemma_sum_mono(
    s: Seq<TimeEntry>,
    p: spec_fn(TimeEntry) -> bool,
    q: spec_fn(TimeEntry) -> bool,
    now: int,
)
    requires
        forall|j: int| 0 <= j < s.len() && p(#[trigger] s[j]) ==> q(s[j]),
        forall|j: int| 0 <= j < s.len() && q(#[trigger] s[j]) ==> entry_seconds(s[j], now) >= 0,
    ensures
        sum_if(s, p, now) <= sum_if(s, q, now),
    decreases s.len(),
{
    if s.len() > 0 {
        assert(forall|j: int| 0 <= j < s.len() - 1 ==> s.drop_last()[j] == s[j]);
        lemma_sum_mono(s.drop_last(), p, q, now);
    }
}

/// A prefix sums to no more than the whole, when contributions are
/// non-negative.
pub proof fn lemma_sum_prefix_le(
    s: Seq<TimeEntry>,
    p: spec_fn(TimeEntry) -> bool,
    now: int,
    j: int,
)
    requires
        0 <= j <= s.len(),
        forall|k: int| 0 <= k < s.len() && p(#[trigger] s[k]) ==> entry_seconds(s[k], now) >= 0,
    ensures
        sum_if(s.take(j), p, now) <= sum_if(s, p, now),
    decreases s.len() - j,
{
    if j < s.len() {
        lemma_agg_take_succ(s, p, now, j);
        lemma_sum_prefix_le(s, p, now, j + 1);
    } else {
        assert(s.take(j) =~= s);
    }
}

/// A filter nothing satisfies sums and counts to zero.
pub proof fn lemma_agg_absent(s: Seq<TimeEntry>, p: spec_fn(TimeEntry) -> bool, now: int)
    requires
        forall|j: int| 0 <= j < s.len() ==> !p(#[trigger] s[j]),
    ensures
        sum_if(s, p, now) == 0,
        count_if(s, p) == 0,
    decreases s.len(),
{
    if s.len() > 0 {
        assert(forall|j: int| 0 <= j < s.len() - 1 ==> s.drop_last()[j] == s[j]);
        lemma_agg_absent(s.drop_last(), p, now);
    }
}

/// A positive sum needs at least one entry that the filter accepts.
pub proof fn lemma_sum_pos_exists(s: Seq<TimeEntry>, p: spec_fn(TimeEntry) -> bool, now: int)
    requires
        sum_if(s, p, now) > 0,
    ensures
        exists|j: int| 0 <= j < s.len() && p(#[trigger] s[j]),
    decreases s.len(),
{
    if s.len() > 0 {
        if p(s.last()) {
            assert(p(s[s.len() - 1]));
        } else {
            lemma_sum_pos_exists(s.drop_last(), p, now);
            let j = choose|j: int| 0 <= j < s.len() - 1 && p(#[trigger] s.drop_last()[j]);
            assert(p(s[j]));
        }
    }
}

/// Entries within a day window, by their start day.
pub open spec fn window_pred(d0: int, d1: int) -> spec_fn(TimeEntry) -> bool {
    |e: TimeEntry| d0 <= entry_day(e) <= d1
}

/// Every entry.
pub open spec fn all_pred() -> spec_fn(TimeEntry) -> bool {
    |e: TimeEntry| true
}

/// The total of a day window, with open sessions blended in.
pub open spec fn window_total(s: Store, d0: int, d1: int, now: int) -> int {
    sum_if(s.entries@, window_pred(d0, d1), now)
}

/// The blended total over the whole ledger; every window total is bounded by
/// it.
pub open spec fn total_all(s: Store, now: int) -> int {
    sum_if(s.entries@, all_pred(), now)
}

/// The number of sessions started within a window.
pub open spec fn window_sessions(s: Store, d0: int, d1: int) -> int {
    count_if(s.entries@, window_pred(d0, d1))
}

/// In a well-formed store read at a time the clock has not passed, every
/// entry contributes a non-negative amount.
pub proof fn lemma_store_seconds_nonneg(s: Store, now: int)
    requires
        s.wf(),
        s.clock <= now,
    ensures
        forall|j: int|
            0 <= j < s.entries@.len() ==> entry_seconds(#[trigger] s.entries@[j], now) >= 0 && 0
                <= entry_day(s.entries@[j]),
{
    assert forall|j: int|
        0 <= j < s.entries@.len() implies entry_seconds(#[trigger] s.entries@[j], now) >= 0 && 0
        <= entry_day(s.entries@[j]) by {
        assert(s.entry_wf(s.entries@[j]));
    }
}

} // verus!
