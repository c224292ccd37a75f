//! The laws the engine guarantees, stated once and proved from the store
//! invariant and the operations' contracts.

use vstd::prelude::*;
use crate::agg::count_if;
use crate::agg::entry_day;
use crate::agg::sum_if;
use crate::agg::window_total;
use crate::statistics::cat_row_matches;
use crate::statistics::categories_listed;
use crate::statistics::categories_ok;
use crate::statistics::percent_of;
use crate::statistics::sum_cat_rows;
use crate::statistics::CategoryStat;
use crate::store::close_open_for;
use crate::store::closed_entry;
use crate::store::count_entries_for;
use crate::store::count_open_for;
use crate::store::is_opening_entry;
use crate::store::lemma_counts_close;
use crate::store::lemma_count_open_nonneg;
use crate::store::Store;
use crate::store::TaskStatus;
use crate::store::TimeEntry;
use crate::task::finished_task;
use crate::task::stopped_task;
use crate::text::session_note;

verus! {

/// A task is Running exactly when exactly one of its ledger entries is
/// open: the single-open-session invariant, which every operation of the
/// engine preserves.
pub proof fn lemma_running_iff_one_open(s: Store, i: int)
    requires
        s.wf(),
        0 <= i < s.tasks@.len(),
    ensures
        (s.tasks@[i].done == TaskStatus::Running) <==> count_open_for(s.entries@, s.tasks@[i].id)
            == 1,
{
}

/// A positive open counter names an open entry.
proof fn lemma_count_open_pos(s: Seq<TimeEntry>, tid: u32)
    requires
        count_open_for(s, tid) >= 1,
    ensures
        exists|j: int|
            0 <= j < s.len() && (#[trigger] s[j]).task_id == tid && s[j].ended_at is None,
    decreases s.len(),
{
    if s.len() > 0 {
        if s.last().task_id == tid && s.last().ended_at is None {
            assert(s[s.len() - 1].task_id == tid && s[s.len() - 1].ended_at is None);
        } else {
            lemma_count_open_pos(s.drop_last(), tid);
            let j = choose|j: int|
                0 <= j < s.len() - 1 && (#[trigger] s.drop_last()[j]).task_id == tid
                    && s.drop_last()[j].ended_at is None;
            assert(s[j].task_id == tid && s[j].ended_at is None);
        }
    }
}

/// When no entry after position `j` belongs to the task, the count stops
/// growing there.
proof fn lemma_count_no_match_suffix(s: Seq<TimeEntry>, tid: u32, j: int)
    requires
        0 <= j < s.len(),
        forall|k: int| j < k < s.len() ==> (#[trigger] s[k]).task_id != tid,
    ensures
        count_entries_for(s, tid) == count_entries_for(s.take(j + 1), tid),
    decreases s.len(),
{
    if s.len() - 1 == j {
        assert(s.take(j + 1) =~= s);
    } else {
        assert(forall|k: int| 0 <= k < s.len() - 1 ==> s.drop_last()[k] == s[k]);
        lemma_count_no_match_suffix(s.drop_last(), tid, j);
        assert(s.drop_last().take(j + 1) =~= s.take(j + 1));
    }
}

/// Stopping a Running task and immediately starting it again produces two
/// ledger entries whose note ordinals are consecutive: the just-closed
/// session reads `"<title> #n"`, the new open one `"<title> #n+1"`, with
/// `n` the task's session count before the restart.
///
/// The relational premises are exactly what `stop_task_impl` and
/// `start_task_impl` ensure on success.
pub proof fn lemma_stop_start_consecutive_notes(
    s0: Store,
    s1: Store,
    s2: Store,
    tid: u32,
    now1: i64,
    now2: i64,
)
    requires
        s0.wf(),
        s0.has_task(tid),
        s0.task_of(tid).done == TaskStatus::Running,
        s1.tasks@ == s0.tasks@.update(tid - 1, stopped_task(s0.task_of(tid), now1)),
        s1.entries@ == close_open_for(s0.entries@, tid, now1),
        s2.entries@.len() == s1.entries@.len() + 1,
        s2.entries@.take(s1.entries@.len() as int) == s1.entries@,
        is_opening_entry(
            s2.entries@.last(),
            (s1.entries@.len() + 1) as u32,
            tid,
            s1.task_of(tid).title@,
            count_entries_for(s1.entries@, tid) + 1,
            now2,
        ),
    ensures
        exists|j: int|
            {
                &&& 0 <= j < s2.entries@.len() - 1
                &&& (#[trigger] s2.entries@[j]).task_id == tid
                &&& s2.entries@[j].ended_at is Some
                &&& s2.entries@[j].note@ == session_note(
                    s0.task_of(tid).title@,
                    count_entries_for(s0.entries@, tid),
                )
            },
        s2.entries@.last().note@ == session_note(
            s0.task_of(tid).title@,
            count_entries_for(s0.entries@, tid) + 1,
        ),
{
    let entries0 = s0.entries@;
    let n = count_entries_for(entries0, tid);
    assert(count_open_for(entries0, tid) == 1);
    lemma_count_open_pos(entries0, tid);
    let j = choose|j: int|
        0 <= j < entries0.len() && (#[trigger] entries0[j]).task_id == tid && entries0[j].ended_at
            is None;
    // The open entry is the task's last, so its ordinal is the full count.
    assert(forall|k: int| j < k < entries0.len() ==> (#[trigger] entries0[k]).task_id != tid);
    lemma_count_no_match_suffix(entries0, tid, j);
    assert(entries0.take(j + 1).drop_last() =~= entries0.take(j));
    assert(entries0.take(j + 1).last() == entries0[j]);
    assert(count_entries_for(entries0.take(j), tid) + 1 == n);
    assert(entries0[j].note@ == session_note(s0.title_of_task(tid), n));
    // Closing keeps the note and position; the new entry's ordinal follows.
    assert(s1.entries@[j] == closed_entry(entries0[j], now1));
    assert(s2.entries@[j] == s1.entries@[j]);
    lemma_counts_close(entries0, tid, now1, tid);
    assert(count_entries_for(s1.entries@, tid) == n);
    assert(s1.task_of(tid).title@ == s0.task_of(tid).title@);
    assert(0 <= j < s2.entries@.len() - 1 && s2.entries@[j].task_id == tid && s2.entries@[j].ended_at
        is Some && s2.entries@[j].note@ == session_note(s0.task_of(tid).title@, n));
}

/// Finishing a Running task closes its one open session with the duration
/// frozen as exactly the end minus the start, and marks the task Finished
/// with its completion time set.
///
/// The relational premises are exactly what `finish_task_impl` ensures on
/// success.
pub proof fn lemma_finish_closes_exactly(s0: Store, s1: Store, tid: u32, now: i64)
    requires
        s0.wf(),
        s0.has_task(tid),
        s0.task_of(tid).done == TaskStatus::Running,
        s1.tasks@ == s0.tasks@.update(tid - 1, finished_task(s0.task_of(tid), now)),
        s1.entries@ == close_open_for(s0.entries@, tid, now),
    ensures
        s1.tasks@[tid - 1].done == TaskStatus::Finished,
        s1.tasks@[tid - 1].completed_at == Some(now),
        exists|j: int|
            {
                &&& 0 <= j < s1.entries@.len()
                &&& (#[trigger] s1.entries@[j]).task_id == tid
                &&& s0.entries@[j].ended_at is None
                &&& s1.entries@[j].ended_at == Some(now)
                &&& s1.entries@[j].duration_seconds == Some(
                    (now - s1.entries@[j].started_at) as i64,
                )
            },
{
    assert(count_open_for(s0.entries@, tid) == 1);
    lemma_count_open_pos(s0.entries@, tid);
    let j = choose|j: int|
        0 <= j < s0.entries@.len() && (#[trigger] s0.entries@[j]).task_id == tid
            && s0.entries@[j].ended_at is None;
    assert(s1.entries@[j] == closed_entry(s0.entries@[j], now));
    assert(0 <= j < s1.entries@.len() && s1.entries@[j].task_id == tid && s0.entries@[j].ended_at
        is None && s1.entries@[j].ended_at == Some(now) && s1.entries@[j].duration_seconds == Some(
        (now - s1.entries@[j].started_at) as i64,
    ));
}

/// Reading a window total twice moves it by exactly the elapsed seconds
/// times the number of open sessions in the window, and by nothing else;
/// two reads at the same instant agree exactly.
proof fn lemma_sum_drift(
    s: Seq<TimeEntry>,
    p: spec_fn(TimeEntry) -> bool,
    q: spec_fn(TimeEntry) -> bool,
    now1: int,
    now2: int,
)
    requires
        forall|e: TimeEntry| #[trigger] q(e) <==> p(e) && e.duration_seconds is None,
    ensures
        sum_if(s, p, now2) - sum_if(s, p, now1) == count_if(s, q) * (now2 - now1),
    decreases s.len(),
{
    if s.len() == 0 {
    } else {
        lemma_sum_drift(s.drop_last(), p, q, now1, now2);
        let c = count_if(s.drop_last(), q);
        assert((c + 1) * (now2 - now1) == c * (now2 - now1) + (now2 - now1)) by (nonlinear_arith);
    }
}

/// Entries of the window that are still open.
pub open spec fn open_window_pred(d0: int, d1: int) -> spec_fn(TimeEntry) -> bool {
    |e: TimeEntry| d0 <= entry_day(e) <= d1 && e.duration_seconds is None
}

/// Between two reads of the same store, a window total drifts by exactly
/// the real elapsed seconds for each open session of the window; with no
/// open session (or no elapsed time) the two reads agree exactly.
pub proof fn lemma_window_total_drift(s: Store, d0: int, d1: int, now1: int, now2: int)
    ensures
        window_total(s, d0, d1, now2) - window_total(s, d0, d1, now1) == count_if(
            s.entries@,
            open_window_pred(d0, d1),
        ) * (now2 - now1),
{
    lemma_sum_drift(
        s.entries@,
        crate::agg::window_pred(d0, d1),
        open_window_pred(d0, d1),
        now1,
        now2,
    );
}

/// In any statistics response whose total is the window total, the
/// per-category seconds sum back to exactly that total, and every
/// percentage is the rounded share of it - zero throughout when the total
/// is zero.
pub proof fn lemma_categories_account_for_total(
    s: Store,
    rows: Seq<CategoryStat>,
    d0: int,
    d1: int,
    now: int,
    total: int,
)
    requires
        categories_ok(s, rows, d0, d1, now, total),
        total == window_total(s, d0, d1, now),
    ensures
        sum_cat_rows(rows) == window_total(s, d0, d1, now),
        forall|i: int|
            0 <= i < rows.len() ==> (#[trigger] rows[i]).percentage == percent_of(
                rows[i].seconds as int,
                total,
            ),
        total == 0 ==> forall|i: int| 0 <= i < rows.len() ==> (#[trigger] rows[i]).percentage == 0,
{
    let ks = choose|ks: Seq<Option<u32>>| categories_listed(s, rows, ks, d0, d1, now, total);
    assert forall|i: int| 0 <= i < rows.len() implies (#[trigger] rows[i]).percentage == percent_of(
        rows[i].seconds as int,
        total,
    ) by {
        assert(cat_row_matches(s, rows[i], ks[i], d0, d1, now, total));
    }
}

} // verus!
