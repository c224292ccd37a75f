//! The task lifecycle: creation and the Todo -> Running -> Finished state
//! machine, always paired with the ledger of work sessions.
//!
//! Every mutating operation is a single step on the in-memory store: it
//! either fails and leaves the store untouched, or performs the whole
//! transition, exactly as the storage transaction of the surrounding
//! application would.

use vstd::prelude::*;
use vstd::pervasive::VecAdditionalExecFns;
use crate::error::ZapError;
use crate::date::MAX_TIMESTAMP;
use crate::store::close_open_for;
use crate::store::closed_entry;
use crate::store::count_entries_for;
use crate::store::count_open_for;
use crate::store::is_opening_entry;
use crate::store::lemma_close_take;
use crate::store::lemma_count_take_push;
use crate::store::lemma_counts_absent;
use crate::store::lemma_counts_close;
use crate::store::lemma_counts_push;
use crate::store::lemma_counts_take_succ;
use crate::store::lemma_no_open_entries;
use crate::store::Store;
use crate::store::Tasks;
use crate::store::TaskStatus;
use crate::store::TimeEntry;
use crate::text::contains_seq;
use crate::text::make_session_note;
use crate::text::session_note;
use crate::text::str_contains;
use crate::agg::all_pred;
use crate::agg::entry_day;
use crate::agg::entry_seconds;
use crate::agg::lemma_agg_take_succ;
use crate::agg::lemma_store_seconds_nonneg;
use crate::agg::lemma_sum_mono;
use crate::agg::lemma_sum_nonneg;
use crate::agg::lemma_sum_prefix_le;
use crate::agg::sum_if;
use crate::agg::total_all;
use crate::date::datetime_string;
use crate::date::format_datetime;
use crate::date::SECONDS_PER_DAY;
use crate::store::open_elapsed_for;
use crate::store::status_code;
use crate::types::PaginatedResponse;

verus! {

/// The input of task creation; optional fields default as documented.
#[derive(Debug, Clone)]
pub struct CreateTaskRequest {
    /// The task title; must not be empty.
    pub title: String,
    /// The category to file the task under, which must exist.
    pub category_id: Option<u32>,
    /// An optional estimate, in seconds.
    pub estimate_seconds: Option<i64>,
    /// Free-text notes.
    pub notes: Option<String>,
    /// Whether the task joins the daily shortlist; defaults to false.
    pub is_today_focus: Option<bool>,
    /// Whether to open the first work session immediately; defaults to false.
    pub start_on_create: Option<bool>,
}

/// An optional flag, read with a default of `false`.
pub open spec fn opt_true(o: Option<bool>) -> bool {
    match o {
        Some(b) => b,
        None => false,
    }
}

/// The task row that creation inserts.
pub open spec fn created_task(req: CreateTaskRequest, id: u32, now: i64) -> Tasks {
    Tasks {
        id,
        title: req.title,
        done: if opt_true(req.start_on_create) {
            TaskStatus::Running
        } else {
            TaskStatus::Todo
        },
        category_id: req.category_id,
        estimate_seconds: req.estimate_seconds,
        notes: req.notes,
        is_today_focus: opt_true(req.is_today_focus),
        created_at: now,
        updated_at: now,
        completed_at: None,
    }
}

/// The task after `start`: Running, freshly touched.
pub open spec fn started_task(t: Tasks, now: i64) -> Tasks {
    Tasks { done: TaskStatus::Running, updated_at: now, ..t }
}

/// The task after `stop`: back to Todo, freshly touched.
pub open spec fn stopped_task(t: Tasks, now: i64) -> Tasks {
    Tasks { done: TaskStatus::Todo, updated_at: now, ..t }
}

/// The task after `finish`: Finished with its completion time set.
pub open spec fn finished_task(t: Tasks, now: i64) -> Tasks {
    Tasks { done: TaskStatus::Finished, completed_at: Some(now), updated_at: now, ..t }
}

/// The task after reopening: Todo again, with the completion time cleared.
pub open spec fn reopened_task(t: Tasks, now: i64) -> Tasks {
    Tasks { done: TaskStatus::Todo, completed_at: None, updated_at: now, ..t }
}

/// A copy of an optional string.
fn clone_opt_string(o: &Option<String>) -> (r: Option<String>)
    ensures
        r == *o,
{
    match o {
        Some(s) => Some(s.clone()),
        None => None,
    }
}

/// A copy of one task row, built field by field.
fn clone_task(t: &Tasks) -> (r: Tasks)
    ensures
        r == *t,
{
    Tasks {
        id: t.id,
        title: t.title.clone(),
        done: t.done,
        category_id: t.category_id,
        estimate_seconds: t.estimate_seconds,
        notes: clone_opt_string(&t.notes),
        is_today_focus: t.is_today_focus,
        created_at: t.created_at,
        updated_at: t.updated_at,
        completed_at: t.completed_at,
    }
}

/// Whether a category with the given id exists.
#[verifier::loop_isolation(false)]
fn category_exists(store: &Store, cid: u32) -> (r: bool)
    ensures
        r == store.has_category(cid),
{
    let mut i: usize = 0;
    while i < store.categories.len()
        invariant
            i <= store.categories@.len(),
            forall|k: int| 0 <= k < i ==> (#[trigger] store.categories@[k]).id != cid,
        decreases store.categories@.len() - i,
    {
        if store.categories[i].id == cid {
            return true;
        }
        i = i + 1;
    }
    false
}

/// The task row with the given id, or `TaskNotFound`.
pub fn get_task_by_id(store: &Store, task_id: u32) -> (r: Result<Tasks, ZapError>)
    requires
        store.wf(),
    ensures
        r is Ok <==> store.has_task(task_id),
        match r {
            Ok(t) => t == store.task_of(task_id),
            Err(e) => e == ZapError::TaskNotFound(task_id),
        },
{
    if task_id == 0 || task_id as usize > store.tasks.len() {
        return Err(ZapError::TaskNotFound(task_id));
    }
    let i = (task_id - 1) as usize;
    Ok(clone_task(&store.tasks[i]))
}

/// How many ledger entries belong to task `tid`.
#[verifier::loop_isolation(false)]
fn count_entries_of(store: &Store, tid: u32) -> (r: usize)
    ensures
        r == count_entries_for(store.entries@, tid),
        r <= store.entries@.len(),
{
    let n = store.entries.len();
    let mut cnt: usize = 0;
    let mut j: usize = 0;
    while j < n
        invariant
            n == store.entries@.len(),
            j <= n,
            cnt == count_entries_for(store.entries@.take(j as int), tid),
            cnt <= j,
        decreases n - j,
    {
        proof {
            lemma_counts_take_succ(store.entries@, j as int, tid, 0);
        }
        if store.entries[j].task_id == tid {
            cnt = cnt + 1;
        }
        j = j + 1;
    }
    proof {
        assert(store.entries@.take(n as int) =~= store.entries@);
    }
    cnt
}

/// Closes every open ledger entry of `task_id` at `now`, freezing the
/// whole-second duration.
#[verifier::loop_isolation(false)]
fn close_open_entries(entries: &mut Vec<TimeEntry>, task_id: u32, now: i64)
    requires
        0 <= now,
        forall|j: int|
            0 <= j < old(entries)@.len() ==> 0 <= (#[trigger] old(entries)@[j]).started_at,
    ensures
        final(entries)@ == close_open_for(old(entries)@, task_id, now),
{
    let n = entries.len();
    let mut j: usize = 0;
    while j < n
        invariant
            n == entries@.len(),
            old(entries)@.len() == n,
            j <= n,
            forall|k: int| j <= k < n ==> entries@[k] == old(entries)@[k],
            forall|k: int|
                0 <= k < j ==> entries@[k] == close_open_for(old(entries)@, task_id, now)[k],
        decreases n - j,
    {
        let is_open = entries[j].ended_at.is_none();
        if entries[j].task_id == task_id && is_open {
            let e = &entries[j];
            let closed = TimeEntry {
                id: e.id,
                task_id: e.task_id,
                started_at: e.started_at,
                ended_at: Some(now),
                duration_seconds: Some(now - e.started_at),
                note: e.note.clone(),
            };
            proof {
                assert(closed == closed_entry(old(entries)@[j as int], now));
            }
            entries.set(j, closed);
        }
        j = j + 1;
    }
    assert(entries@ =~= close_open_for(old(entries)@, task_id, now));
}

/// Creates a task.
///
/// Fails with `InvalidTaskData` on an empty title and with
/// `InvalidCategoryData` on an unknown category reference, inserting nothing
/// in either case. On success the task row is appended, and when
/// `start_on_create` is set the first work session is opened in the same
/// step, with the note ordinal 1.
pub fn add_task_impl(store: &mut Store, req: CreateTaskRequest, now: i64) -> (r: Result<
    (),
    ZapError,
>)
    requires
        old(store).wf(),
        old(store).clock <= now <= MAX_TIMESTAMP,
        old(store).tasks@.len() < 0xffff_ffff,
        old(store).entries@.len() < 0xffff_ffff,
    ensures
        final(store).wf(),
        r is Ok <==> req.title@.len() > 0 && (match req.category_id {
            Some(c) => old(store).has_category(c),
            None => true,
        }),
        match r {
            Ok(u) => {
                &&& final(store).tasks@ == old(store).tasks@.push(
                    created_task(req, (old(store).tasks@.len() + 1) as u32, now),
                )
                &&& opt_true(req.start_on_create) ==> {
                    &&& final(store).entries@.len() == old(store).entries@.len() + 1
                    &&& final(store).entries@.take(old(store).entries@.len() as int) == old(
                        store,
                    ).entries@
                    &&& is_opening_entry(
                        final(store).entries@.last(),
                        (old(store).entries@.len() + 1) as u32,
                        (old(store).tasks@.len() + 1) as u32,
                        req.title@,
                        1,
                        now,
                    )
                }
                &&& !opt_true(req.start_on_create) ==> final(store).entries@ == old(store).entries@
                &&& final(store).categories@ == old(store).categories@
                &&& final(store).next_category_id == old(store).next_category_id
                &&& final(store).focuses@ == old(store).focuses@
                &&& final(store).clock == now
            },
            Err(e) => {
                &&& *final(store) == *old(store)
                &&& (req.title@.len() == 0 ==> e is InvalidTaskData)
                &&& (req.title@.len() > 0 ==> e is InvalidCategoryData)
            },
        },
{
    if req.title.as_str().is_empty() {
        return Err(ZapError::InvalidTaskData("title cannot be empty"));
    }
    match req.category_id {
        Some(cid) => {
            if !category_exists(store, cid) {
                return Err(ZapError::InvalidCategoryData("category id not found"));
            }
        },
        None => {},
    }
    let start_now = match req.start_on_create {
        Some(b) => b,
        None => false,
    };
    let focus = match req.is_today_focus {
        Some(b) => b,
        None => false,
    };
    let tid: u32 = (store.tasks.len() as u32) + 1;
    let title_for_note = req.title.clone();
    let t = Tasks {
        id: tid,
        title: req.title,
        done: if start_now {
            TaskStatus::Running
        } else {
            TaskStatus::Todo
        },
        category_id: req.category_id,
        estimate_seconds: req.estimate_seconds,
        notes: req.notes,
        is_today_focus: focus,
        created_at: now,
        updated_at: now,
        completed_at: None,
    };
    proof {
        assert(t == created_task(req, tid, now));
    }
    store.tasks.push(t);
    if start_now {
        let note = make_session_note(&title_for_note, 1);
        let eid: u32 = (store.entries.len() as u32) + 1;
        let e = TimeEntry {
            id: eid,
            task_id: tid,
            started_at: now,
            ended_at: None,
            duration_seconds: None,
            note,
        };
        store.entries.push(e);
    }
    store.clock = now;
    proof {
        let os = *old(store);
        let oldt = os.tasks@;
        let olde = os.entries@;
        let newt = store.tasks@;
        let newe = store.entries@;
        assert(forall|i: int| 0 <= i < oldt.len() ==> newt[i] == oldt[i]);
        assert(forall|j: int| 0 <= j < olde.len() ==> newe[j] == olde[j]);
        // No old ledger entry belongs to the fresh task.
        assert(forall|j: int|
            0 <= j < olde.len() ==> (#[trigger] olde[j]).task_id != tid) by {
            assert(forall|j: int|
                0 <= j < olde.len() ==> os.has_task((#[trigger] olde[j]).task_id));
        }
        lemma_counts_absent(olde, tid);
        // Per-task open counters over the final ledger.
        if opt_true(req.start_on_create) {
            lemma_counts_push(olde, newe.last(), tid, 0);
            assert(count_open_for(newe, tid) == 1);
            assert forall|i: int| 0 <= i < newt.len() && newt[i].id != tid implies count_open_for(
                newe,
                newt[i].id,
            ) == count_open_for(olde, newt[i].id) by {
                lemma_counts_push(olde, newe.last(), newt[i].id, 0);
            }
            // Notes of the old entries keep their ordinals.
            assert forall|j: int| 0 <= j < olde.len() implies count_entries_for(
                newe.take(j),
                (#[trigger] newe[j]).task_id,
            ) == count_entries_for(olde.take(j), olde[j].task_id) by {
                lemma_count_take_push(olde, newe.last(), j, olde[j].task_id);
            }
            assert(count_entries_for(newe.take(olde.len() as int), tid) == 0) by {
                assert(newe.take(olde.len() as int) =~= olde);
            }
        } else {
            assert forall|i: int| 0 <= i < newt.len() implies count_open_for(newe, newt[i].id)
                == count_open_for(olde, newt[i].id) by {}
        }
        assert(store.wf());
    }
    Ok(())
}

/// Starts a task.
///
/// Requires the task to be in Todo; otherwise fails with
/// `TaskAlreadyStarted` (or `TaskNotFound`) and leaves the store, in
/// particular the ledger, untouched. On success the task becomes Running and
/// a fresh open session is appended whose note ordinal continues the task's
/// session count.
#[verifier::loop_isolation(false)]
#[verifier::rlimit(40)]
pub fn start_task_impl(store: &mut Store, task_id: u32, now: i64) -> (r: Result<(), ZapError>)
    requires
        old(store).wf(),
        old(store).clock <= now <= MAX_TIMESTAMP,
        old(store).entries@.len() < 0xffff_ffff,
    ensures
        final(store).wf(),
        r is Ok <==> old(store).has_task(task_id) && old(store).task_of(task_id).done
            == TaskStatus::Todo,
        match r {
            Ok(u) => {
                &&& final(store).tasks@ == old(store).tasks@.update(
                    task_id - 1,
                    started_task(old(store).task_of(task_id), now),
                )
                &&& final(store).entries@.len() == old(store).entries@.len() + 1
                &&& final(store).entries@.take(old(store).entries@.len() as int) == old(
                    store,
                ).entries@
                &&& is_opening_entry(
                    final(store).entries@.last(),
                    (old(store).entries@.len() + 1) as u32,
                    task_id,
                    old(store).task_of(task_id).title@,
                    count_entries_for(old(store).entries@, task_id) + 1,
                    now,
                )
                &&& final(store).categories@ == old(store).categories@
                &&& final(store).next_category_id == old(store).next_category_id
                &&& final(store).focuses@ == old(store).focuses@
                &&& final(store).clock == now
            },
            Err(e) => {
                &&& *final(store) == *old(store)
                &&& (e == ZapError::TaskNotFound(task_id) <==> !old(store).has_task(task_id))
                &&& (e == ZapError::TaskAlreadyStarted(task_id) <==> old(store).has_task(task_id)
                    && old(store).task_of(task_id).done != TaskStatus::Todo)
            },
        },
{
    if task_id == 0 || task_id as usize > store.tasks.len() {
        return Err(ZapError::TaskNotFound(task_id));
    }
    let i = (task_id - 1) as usize;
    if store.tasks[i].done != TaskStatus::Todo {
        return Err(ZapError::TaskAlreadyStarted(task_id));
    }
    let cnt = count_entries_of(store, task_id);
    let note = make_session_note(&store.tasks[i].title, (cnt as i64) + 1);
    let t = &store.tasks[i];
    let updated = Tasks {
        id: t.id,
        title: t.title.clone(),
        done: TaskStatus::Running,
        category_id: t.category_id,
        estimate_seconds: t.estimate_seconds,
        notes: clone_opt_string(&t.notes),
        is_today_focus: t.is_today_focus,
        created_at: t.created_at,
        updated_at: now,
        completed_at: t.completed_at,
    };
    proof {
        assert(updated == started_task(old(store).task_of(task_id), now));
    }
    store.tasks.set(i, updated);
    let eid: u32 = (store.entries.len() as u32) + 1;
    let e = TimeEntry {
        id: eid,
        task_id,
        started_at: now,
        ended_at: None,
        duration_seconds: None,
        note,
    };
    store.entries.push(e);
    store.clock = now;
    proof {
        let os = *old(store);
        let olde = os.entries@;
        let newe = store.entries@;
        let newt = store.tasks@;
        assert(newe.take(olde.len() as int) =~= olde);
        assert(count_open_for(olde, task_id) == 0);
        lemma_no_open_entries(olde, task_id);
        assert forall|i2: int| 0 <= i2 < newt.len() implies count_open_for(
            newe,
            (#[trigger] newt[i2]).id,
        ) == (if newt[i2].done == TaskStatus::Running {
            1int
        } else {
            0int
        }) by {
            lemma_counts_push(olde, newe.last(), newt[i2].id, 0);
            if i2 != task_id - 1 {
                assert(newt[i2] == os.tasks@[i2]);
                assert(newt[i2].id != task_id);
            }
        }
        assert forall|j: int| 0 <= j < olde.len() implies count_entries_for(
            newe.take(j),
            (#[trigger] newe[j]).task_id,
        ) == count_entries_for(olde.take(j), olde[j].task_id) by {
            lemma_count_take_push(olde, newe.last(), j, olde[j].task_id);
        }
        assert(count_entries_for(newe.take(olde.len() as int), task_id) == count_entries_for(
            olde,
            task_id,
        ));
        assert forall|i2: int| 0 <= i2 < newt.len() implies store.task_wf(
            #[trigger] newt[i2],
        ) by {
            assert(os.task_wf(os.tasks@[i2]));
            match newt[i2].category_id {
                Some(c) => {
                    assert(os.has_category(c));
                    let w = choose|w: int|
                        0 <= w < os.categories@.len() && (#[trigger] os.categories@[w]).id == c;
                    assert(store.categories@[w].id == c);
                },
                None => {},
            }
        }
        assert(store.wf());
    }
    Ok(())
}

/// The store invariant is preserved by any step that rewrites one task row
/// to a non-Running state and closes that task's open ledger entries.
proof fn lemma_wf_after_close(os: Store, ns: Store, task_id: u32, now: i64)
    requires
        os.wf(),
        os.has_task(task_id),
        os.clock <= now <= MAX_TIMESTAMP,
        ns.tasks@.len() == os.tasks@.len(),
        forall|i: int|
            0 <= i < os.tasks@.len() && i != task_id - 1 ==> ns.tasks@[i] == os.tasks@[i],
        ns.tasks@[task_id - 1].id == os.task_of(task_id).id,
        ns.tasks@[task_id - 1].title == os.task_of(task_id).title,
        ns.tasks@[task_id - 1].category_id == os.task_of(task_id).category_id,
        ns.tasks@[task_id - 1].created_at == os.task_of(task_id).created_at,
        ns.tasks@[task_id - 1].updated_at == now,
        ns.tasks@[task_id - 1].done != TaskStatus::Running,
        ns.tasks@[task_id - 1].completed_at is Some <==> ns.tasks@[task_id - 1].done
            == TaskStatus::Finished,
        ns.tasks@[task_id - 1].completed_at is Some ==> ns.tasks@[task_id - 1].completed_at->0
            == now,
        ns.entries@ == close_open_for(os.entries@, task_id, now),
        ns.categories@ == os.categories@,
        ns.next_category_id == os.next_category_id,
        ns.focuses@ == os.focuses@,
        ns.clock == now,
    ensures
        ns.wf(),
{
    let olde = os.entries@;
    let newe = ns.entries@;
    assert(newe.len() == olde.len());
    assert forall|j: int| 0 <= j < newe.len() implies ns.entry_wf(#[trigger] newe[j]) by {
        assert(os.entry_wf(olde[j]));
    }
    assert forall|i2: int| 0 <= i2 < ns.tasks@.len() implies count_open_for(
        newe,
        (#[trigger] ns.tasks@[i2]).id,
    ) == (if ns.tasks@[i2].done == TaskStatus::Running {
        1int
    } else {
        0int
    }) by {
        lemma_counts_close(olde, task_id, now, ns.tasks@[i2].id);
        if i2 != task_id - 1 {
            assert(ns.tasks@[i2] == os.tasks@[i2]);
            assert(ns.tasks@[i2].id != task_id);
        }
    }
    assert forall|j: int, k: int|
        0 <= j < k < newe.len() && (#[trigger] newe[j]).task_id == (#[trigger] newe[k]).task_id
            implies newe[j].ended_at is Some by {
        if newe[j].ended_at is None {
            assert(olde[j].ended_at is None);
            assert(olde[j].task_id == olde[k].task_id);
        }
    }
    assert forall|j: int| 0 <= j < newe.len() implies (#[trigger] newe[j]).note@ == session_note(
        ns.title_of_task(newe[j].task_id),
        count_entries_for(newe.take(j), newe[j].task_id) + 1,
    ) by {
        let tid2 = newe[j].task_id;
        lemma_close_take(olde, task_id, now, j);
        lemma_counts_close(olde.take(j), task_id, now, tid2);
        assert(count_entries_for(newe.take(j), tid2) == count_entries_for(olde.take(j), tid2));
        assert(newe[j].note == olde[j].note);
        assert(ns.title_of_task(tid2) == os.title_of_task(tid2));
        assert(olde[j].note@ == session_note(
            os.title_of_task(tid2),
            count_entries_for(olde.take(j), tid2) + 1,
        ));
    }
    assert forall|i: int| 0 <= i < ns.tasks@.len() implies ns.task_wf(#[trigger] ns.tasks@[i]) by {
        assert(os.task_wf(os.tasks@[i]));
        match ns.tasks@[i].category_id {
            Some(c) => {
                assert(os.has_category(c));
                let w = choose|w: int|
                    0 <= w < os.categories@.len() && (#[trigger] os.categories@[w]).id == c;
                assert(ns.categories@[w].id == c);
            },
            None => {},
        }
    }
    assert(ns.wf());
}

/// Stops a Running task.
///
/// Fails with `TaskNotStarted` (or `TaskNotFound`) and changes nothing when
/// the task is not Running. On success the task returns to Todo and its one
/// open session is closed: the end time is recorded and the duration frozen
/// as the whole-second difference.
pub fn stop_task_impl(store: &mut Store, task_id: u32, now: i64) -> (r: Result<(), ZapError>)
    requires
        old(store).wf(),
        old(store).clock <= now <= MAX_TIMESTAMP,
    ensures
        final(store).wf(),
        r is Ok <==> old(store).has_task(task_id) && old(store).task_of(task_id).done
            == TaskStatus::Running,
        match r {
            Ok(u) => {
                &&& final(store).tasks@ == old(store).tasks@.update(
                    task_id - 1,
                    stopped_task(old(store).task_of(task_id), now),
                )
                &&& final(store).entries@ == close_open_for(old(store).entries@, task_id, now)
                &&& final(store).categories@ == old(store).categories@
                &&& final(store).next_category_id == old(store).next_category_id
                &&& final(store).focuses@ == old(store).focuses@
                &&& final(store).clock == now
            },
            Err(e) => {
                &&& *final(store) == *old(store)
                &&& (e == ZapError::TaskNotFound(task_id) <==> !old(store).has_task(task_id))
                &&& (e == ZapError::TaskNotStarted(task_id) <==> old(store).has_task(task_id)
                    && old(store).task_of(task_id).done != TaskStatus::Running)
            },
        },
{
    if task_id == 0 || task_id as usize > store.tasks.len() {
        return Err(ZapError::TaskNotFound(task_id));
    }
    let i = (task_id - 1) as usize;
    if store.tasks[i].done != TaskStatus::Running {
        return Err(ZapError::TaskNotStarted(task_id));
    }
    let t = &store.tasks[i];
    let updated = Tasks {
        id: t.id,
        title: t.title.clone(),
        done: TaskStatus::Todo,
        category_id: t.category_id,
        estimate_seconds: t.estimate_seconds,
        notes: clone_opt_string(&t.notes),
        is_today_focus: t.is_today_focus,
        created_at: t.created_at,
        updated_at: now,
        completed_at: t.completed_at,
    };
    proof {
        assert(updated == stopped_task(old(store).task_of(task_id), now));
    }
    store.tasks.set(i, updated);
    proof {
        assert forall|j: int|
            0 <= j < store.entries@.len() implies 0 <= (#[trigger] store.entries@[j]).started_at by {
            assert(old(store).entry_wf(old(store).entries@[j]));
        }
    }
    close_open_entries(&mut store.entries, task_id, now);
    store.clock = now;
    proof {
        lemma_wf_after_close(*old(store), *store, task_id, now);
    }
    Ok(())
}

/// Finishes a task from any state.
///
/// If the task is Running its open session is first closed (the implicit
/// stop), in the same atomic step; then the status becomes Finished and the
/// completion time is set to `now`. Only an unknown id fails.
pub fn finish_task_impl(store: &mut Store, task_id: u32, now: i64) -> (r: Result<(), ZapError>)
    requires
        old(store).wf(),
        old(store).clock <= now <= MAX_TIMESTAMP,
    ensures
        final(store).wf(),
        r is Ok <==> old(store).has_task(task_id),
        match r {
            Ok(u) => {
                &&& final(store).tasks@ == old(store).tasks@.update(
                    task_id - 1,
                    finished_task(old(store).task_of(task_id), now),
                )
                &&& final(store).entries@ == close_open_for(old(store).entries@, task_id, now)
                &&& final(store).categories@ == old(store).categories@
                &&& final(store).next_category_id == old(store).next_category_id
                &&& final(store).focuses@ == old(store).focuses@
                &&& final(store).clock == now
            },
            Err(e) => {
                &&& *final(store) == *old(store)
                &&& e == ZapError::TaskNotFound(task_id)
            },
        },
{
    if task_id == 0 || task_id as usize > store.tasks.len() {
        return Err(ZapError::TaskNotFound(task_id));
    }
    let i = (task_id - 1) as usize;
    let was_running = store.tasks[i].done == TaskStatus::Running;
    let t = &store.tasks[i];
    let updated = Tasks {
        id: t.id,
        title: t.title.clone(),
        done: TaskStatus::Finished,
        category_id: t.category_id,
        estimate_seconds: t.estimate_seconds,
        notes: clone_opt_string(&t.notes),
        is_today_focus: t.is_today_focus,
        created_at: t.created_at,
        updated_at: now,
        completed_at: Some(now),
    };
    proof {
        assert(updated == finished_task(old(store).task_of(task_id), now));
    }
    store.tasks.set(i, updated);
    if was_running {
        proof {
            assert forall|j: int|
                0 <= j < store.entries@.len() implies 0 <= (
            #[trigger] store.entries@[j]).started_at by {
                assert(old(store).entry_wf(old(store).entries@[j]));
            }
        }
        close_open_entries(&mut store.entries, task_id, now);
    } else {
        proof {
            assert(count_open_for(old(store).entries@, task_id) == 0);
            lemma_no_open_entries(old(store).entries@, task_id);
            assert(store.entries@ =~= close_open_for(old(store).entries@, task_id, now));
        }
    }
    store.clock = now;
    proof {
        lemma_wf_after_close(*old(store), *store, task_id, now);
    }
    Ok(())
}

/// Reopens a Finished task: the status returns to Todo and the completion
/// time is cleared, so that `completed_at` is set exactly while a task is
/// Finished.
///
/// Fails with `TaskNotDone` (or `TaskNotFound`) and changes nothing when the
/// task is not Finished. The ledger is untouched.
pub fn toggle_task_done_impl(store: &mut Store, task_id: u32, now: i64) -> (r: Result<
    (),
    ZapError,
>)
    requires
        old(store).wf(),
        old(store).clock <= now <= MAX_TIMESTAMP,
    ensures
        final(store).wf(),
        r is Ok <==> old(store).has_task(task_id) && old(store).task_of(task_id).done
            == TaskStatus::Finished,
        match r {
            Ok(u) => {
                &&& final(store).tasks@ == old(store).tasks@.update(
                    task_id - 1,
                    reopened_task(old(store).task_of(task_id), now),
                )
                &&& final(store).entries@ == old(store).entries@
                &&& final(store).categories@ == old(store).categories@
                &&& final(store).next_category_id == old(store).next_category_id
                &&& final(store).focuses@ == old(store).focuses@
                &&& final(store).clock == now
            },
            Err(e) => {
                &&& *final(store) == *old(store)
                &&& (e == ZapError::TaskNotFound(task_id) <==> !old(store).has_task(task_id))
                &&& (e == ZapError::TaskNotDone(task_id) <==> old(store).has_task(task_id) && old(
                    store,
                ).task_of(task_id).done != TaskStatus::Finished)
            },
        },
{
    if task_id == 0 || task_id as usize > store.tasks.len() {
        return Err(ZapError::TaskNotFound(task_id));
    }
    let i = (task_id - 1) as usize;
    if !(store.tasks[i].done == TaskStatus::Finished) {
        return Err(ZapError::TaskNotDone(task_id));
    }
    let t = &store.tasks[i];
    let updated = Tasks {
        id: t.id,
        title: t.title.clone(),
        done: TaskStatus::Todo,
        category_id: t.category_id,
        estimate_seconds: t.estimate_seconds,
        notes: clone_opt_string(&t.notes),
        is_today_focus: t.is_today_focus,
        created_at: t.created_at,
        updated_at: now,
        completed_at: None,
    };
    proof {
        assert(updated == reopened_task(old(store).task_of(task_id), now));
    }
    store.tasks.set(i, updated);
    store.clock = now;
    proof {
        assert(count_open_for(old(store).entries@, task_id) == 0);
        lemma_no_open_entries(old(store).entries@, task_id);
        assert(store.entries@ =~= close_open_for(old(store).entries@, task_id, now));
        lemma_wf_after_close(*old(store), *store, task_id, now);
    }
    Ok(())
}

/// The filter and page of a task listing; `new` gives the defaults.
#[derive(Debug, Clone)]
pub struct TaskQuery {
    /// The page number, counted from 1; defaults to 1.
    pub page_index: u32,
    /// The page size; defaults to 20.
    pub page_size: u32,
    /// A substring the title must contain, when given.
    pub task_name: Option<String>,
    /// The status to restrict to; without it, Finished tasks are hidden.
    pub done: Option<TaskStatus>,
}

impl TaskQuery {
    /// The default query: the first page of twenty, no filters.
    pub fn new() -> (r: TaskQuery)
        ensures
            r.page_index == 1,
            r.page_size == 20,
            r.task_name is None,
            r.done is None,
    {
        TaskQuery { page_index: 1, page_size: 20, task_name: None, done: None }
    }
}

/// One task of a listing page, joined with its category and its durations.
#[derive(Debug, Clone)]
pub struct TaskResponse {
    /// The task's id.
    pub task_id: u32,
    /// The task's title.
    pub title: String,
    /// The lifecycle state.
    pub done: TaskStatus,
    /// The category id, if any.
    pub category_id: Option<u32>,
    /// The category name, if any.
    pub category_name: Option<String>,
    /// The category color, if any.
    pub color: Option<String>,
    /// The lifetime sum of the task's frozen (closed) durations.
    pub total_duration_seconds: i64,
    /// The sum of frozen durations of sessions started today.
    pub today_duration_seconds: i64,
    /// The completion time as `YYYY-MM-DD HH:MM:SS`, while Finished.
    pub completed_at: Option<String>,
    /// The live elapsed seconds of the open session, 0 unless Running.
    pub session_seconds: i64,
}

/// A task passes the listing filter: its title contains the name filter,
/// and its status matches the filter (Finished tasks are hidden when no
/// status is asked for).
pub open spec fn matches_query(t: Tasks, q: TaskQuery) -> bool {
    &&& match q.task_name {
        Some(n) => contains_seq(t.title@, n@),
        None => true,
    }
    &&& match q.done {
        Some(s) => t.done == s,
        None => t.done != TaskStatus::Finished,
    }
}

/// How many of the tasks pass the filter.
pub open spec fn count_matching(ts: Seq<Tasks>, q: TaskQuery) -> int
    decreases ts.len(),
{
    if ts.len() == 0 {
        0
    } else {
        count_matching(ts.drop_last(), q) + if matches_query(ts.last(), q) {
            1int
        } else {
            0int
        }
    }
}

proof fn lemma_count_matching_take_succ(ts: Seq<Tasks>, q: TaskQuery, i: int)
    requires
        0 <= i < ts.len(),
    ensures
        count_matching(ts.take(i + 1), q) == count_matching(ts.take(i), q) + if matches_query(
            ts[i],
            q,
        ) {
            1int
        } else {
            0int
        },
{
    assert(ts.take(i + 1).drop_last() =~= ts.take(i));
    assert(ts.take(i + 1).last() == ts[i]);
}

proof fn lemma_count_matching_bounds(ts: Seq<Tasks>, q: TaskQuery)
    ensures
        0 <= count_matching(ts, q) <= ts.len(),
    decreases ts.len(),
{
    if ts.len() > 0 {
        lemma_count_matching_bounds(ts.drop_last(), q);
    }
}

/// The listing order: status ascending (Todo, Running, Finished), then
/// newest creation first.
pub open spec fn list_before_eq(a: Tasks, b: Tasks) -> bool {
    status_code(a.done) < status_code(b.done) || (status_code(a.done) == status_code(b.done)
        && a.created_at >= b.created_at)
}

/// The numeric rank of a status.
fn status_rank(s: TaskStatus) -> (r: i64)
    ensures
        r == status_code(s),
{
    match s {
        TaskStatus::Todo => 0,
        TaskStatus::Running => 1,
        TaskStatus::Finished => 2,
    }
}

/// The listing order, decided.
fn list_before_eq_exec(a: &Tasks, b: &Tasks) -> (r: bool)
    ensures
        r == list_before_eq(*a, *b),
{
    let ra = status_rank(a.done);
    let rb = status_rank(b.done);
    ra < rb || (ra == rb && a.created_at >= b.created_at)
}

/// A position holding task index `i` exists.
pub open spec fn has_idx(v: Seq<usize>, i: int) -> bool {
    exists|k: int| 0 <= k < v.len() && (#[trigger] v[k]) as int == i
}

/// No task index appears twice.
pub open spec fn idx_distinct(v: Seq<usize>) -> bool {
    forall|a: int, b: int|
        0 <= a < v.len() && 0 <= b < v.len() && a != b ==> (#[trigger] v[a]) != (#[trigger] v[b])
}

/// The frozen (closed) durations of task `tid`, lifetime.
pub open spec fn closed_task_pred(tid: u32) -> spec_fn(TimeEntry) -> bool {
    |e: TimeEntry| e.task_id == tid && e.duration_seconds is Some
}

/// The frozen durations of task `tid` for sessions started on day `today`.
pub open spec fn closed_today_pred(tid: u32, today: int) -> spec_fn(TimeEntry) -> bool {
    |e: TimeEntry| e.task_id == tid && e.duration_seconds is Some && entry_day(e) == today
}

/// The lifetime sum of the task's frozen durations.
pub open spec fn task_closed_seconds(s: Store, tid: u32, now: int) -> int {
    sum_if(s.entries@, closed_task_pred(tid), now)
}

/// The sum of the task's frozen durations for sessions started on `today`.
pub open spec fn task_closed_today_seconds(s: Store, tid: u32, today: int, now: int) -> int {
    sum_if(s.entries@, closed_today_pred(tid, today), now)
}

/// Sums the frozen durations of task `tid`, lifetime and for today.
#[verifier::loop_isolation(false)]
fn closed_sums_of(store: &Store, tid: u32, today: i64, now: i64) -> (r: (i64, i64))
    requires
        store.wf(),
        store.clock <= now,
        total_all(*store, now as int) <= i64::MAX,
    ensures
        r.0 == task_closed_seconds(*store, tid, now as int),
        r.1 == task_closed_today_seconds(*store, tid, today as int, now as int),
        0 <= r.1 && 0 <= r.0,
{
    proof {
        lemma_store_seconds_nonneg(*store, now as int);
    }
    let ghost nowi = now as int;
    let ghost p = closed_task_pred(tid);
    let ghost pt = closed_today_pred(tid, today as int);
    let n = store.entries.len();
    let mut acc: i64 = 0;
    let mut acct: i64 = 0;
    let mut j: usize = 0;
    while j < n
        invariant
            n == store.entries@.len(),
            j <= n,
            acc == sum_if(store.entries@.take(j as int), p, nowi),
            acct == sum_if(store.entries@.take(j as int), pt, nowi),
            0 <= acc,
            0 <= acct,
        decreases n - j,
    {
        proof {
            lemma_agg_take_succ(store.entries@, p, nowi, j as int);
            lemma_agg_take_succ(store.entries@, pt, nowi, j as int);
            lemma_sum_prefix_le(store.entries@, p, nowi, j as int + 1);
            lemma_sum_prefix_le(store.entries@, pt, nowi, j as int + 1);
            lemma_sum_mono(store.entries@, p, all_pred(), nowi);
            lemma_sum_mono(store.entries@, pt, all_pred(), nowi);
            lemma_sum_nonneg(store.entries@.take(j as int + 1), p, nowi);
            lemma_sum_nonneg(store.entries@.take(j as int + 1), pt, nowi);
            assert(store.entry_wf(store.entries@[j as int]));
        }
        let e = &store.entries[j];
        if e.task_id == tid {
            match e.duration_seconds {
                Some(dur) => {
                    acc = acc + dur;
                    let day = e.started_at / SECONDS_PER_DAY;
                    if day == today {
                        acct = acct + dur;
                    }
                },
                None => {},
            }
        }
        j = j + 1;
    }
    proof {
        assert(store.entries@.take(n as int) =~= store.entries@);
    }
    (acc, acct)
}

/// A task with no open entry has no live elapsed time.
proof fn lemma_open_elapsed_zero(s: Seq<TimeEntry>, tid: u32, now: int)
    requires
        count_open_for(s, tid) == 0,
    ensures
        open_elapsed_for(s, tid, now) == 0,
    decreases s.len(),
{
    if s.len() > 0 {
        crate::store::lemma_count_open_nonneg(s.drop_last(), tid);
        lemma_open_elapsed_zero(s.drop_last(), tid, now);
    }
}

/// The open counter of a prefix never exceeds that of the whole ledger.
proof fn lemma_count_open_prefix_le(s: Seq<TimeEntry>, tid: u32, j: int)
    requires
        0 <= j <= s.len(),
    ensures
        count_open_for(s.take(j), tid) <= count_open_for(s, tid),
    decreases s.len() - j,
{
    if j < s.len() {
        lemma_counts_take_succ(s, j, tid, 0);
        lemma_count_open_prefix_le(s, tid, j + 1);
    } else {
        assert(s.take(j) =~= s);
    }
}

/// The live elapsed seconds of the task's open session, 0 when none is
/// open.
#[verifier::loop_isolation(false)]
fn session_seconds_of(store: &Store, tid: u32, now: i64) -> (r: i64)
    requires
        store.wf(),
        store.clock <= now <= MAX_TIMESTAMP,
        count_open_for(store.entries@, tid) <= 1,
    ensures
        r == open_elapsed_for(store.entries@, tid, now as int),
        0 <= r,
{
    let ghost nowi = now as int;
    let n = store.entries.len();
    let mut r: i64 = 0;
    let mut found: bool = false;
    let mut j: usize = 0;
    while j < n
        invariant
            n == store.entries@.len(),
            j <= n,
            r == open_elapsed_for(store.entries@.take(j as int), tid, nowi),
            count_open_for(store.entries@.take(j as int), tid) == (if found {
                1int
            } else {
                0int
            }),
            0 <= r,
        decreases n - j,
    {
        proof {
            lemma_counts_take_succ(store.entries@, j as int, tid, nowi);
            assert(store.entry_wf(store.entries@[j as int]));
        }
        let e = &store.entries[j];
        let is_open = e.ended_at.is_none();
        if e.task_id == tid && is_open {
            if found {
                proof {
                    lemma_count_open_prefix_le(store.entries@, tid, j as int + 1);
                    assert(false);
                }
            } else {
                proof {
                    lemma_open_elapsed_zero(store.entries@.take(j as int), tid, nowi);
                }
                found = true;
                r = now - e.started_at;
            }
        }
        j = j + 1;
    }
    proof {
        assert(store.entries@.take(n as int) =~= store.entries@);
    }
    r
}

/// Sorts matching task indices into listing order, preserving the index
/// set, distinctness, and a pointwise property.
#[verifier::loop_isolation(false)]
#[verifier::rlimit(50)]
fn sort_task_indices(store: &Store, v: &mut Vec<usize>, Ghost(good): Ghost<spec_fn(usize) -> bool>)
    requires
        forall|k: int| 0 <= k < old(v)@.len() ==> good(#[trigger] old(v)@[k]),
        forall|k: int|
            0 <= k < old(v)@.len() ==> ((#[trigger] old(v)@[k]) as int) < store.tasks@.len(),
    ensures
        final(v)@.len() == old(v)@.len(),
        forall|k: int| 0 <= k < final(v)@.len() ==> good(#[trigger] final(v)@[k]),
        forall|k: int|
            0 <= k < final(v)@.len() ==> ((#[trigger] final(v)@[k]) as int) < store.tasks@.len(),
        forall|a: int, b: int|
            0 <= a < b < final(v)@.len() ==> list_before_eq(
                store.tasks@[(#[trigger] final(v)@[a]) as int],
                store.tasks@[(#[trigger] final(v)@[b]) as int],
            ),
        forall|i: int| #[trigger] has_idx(final(v)@, i) <==> has_idx(old(v)@, i),
        idx_distinct(old(v)@) ==> idx_distinct(final(v)@),
{
    let n = v.len();
    if n == 0 {
        return ;
    }
    let mut i: usize = 1;
    while i < n
        invariant
            n == v@.len(),
            old(v)@.len() == n,
            1 <= i <= n,
            forall|k: int| 0 <= k < n ==> good(#[trigger] v@[k]),
            forall|k: int| 0 <= k < n ==> ((#[trigger] v@[k]) as int) < store.tasks@.len(),
            forall|a: int, b: int|
                0 <= a < b < i ==> list_before_eq(
                    store.tasks@[(#[trigger] v@[a]) as int],
                    store.tasks@[(#[trigger] v@[b]) as int],
                ),
            forall|i2: int| #[trigger] has_idx(v@, i2) <==> has_idx(old(v)@, i2),
            idx_distinct(old(v)@) ==> idx_distinct(v@),
        decreases n - i,
    {
        let mut j: usize = i;
        let mut more: bool = true;
        while j > 0 && more
            invariant
                n == v@.len(),
                old(v)@.len() == n,
                0 <= j <= i < n,
                forall|k: int| 0 <= k < n ==> good(#[trigger] v@[k]),
                forall|k: int| 0 <= k < n ==> ((#[trigger] v@[k]) as int) < store.tasks@.len(),
                forall|a: int, b: int|
                    0 <= a < b <= i && b != j ==> list_before_eq(
                        store.tasks@[(#[trigger] v@[a]) as int],
                        store.tasks@[(#[trigger] v@[b]) as int],
                    ),
                forall|a: int|
                    j < a <= i ==> list_before_eq(
                        store.tasks@[v@[j as int] as int],
                        store.tasks@[(#[trigger] v@[a]) as int],
                    ),
                !more && j > 0 ==> list_before_eq(
                    store.tasks@[v@[j - 1] as int],
                    store.tasks@[v@[j as int] as int],
                ),
                forall|i2: int| #[trigger] has_idx(v@, i2) <==> has_idx(old(v)@, i2),
                idx_distinct(old(v)@) ==> idx_distinct(v@),
            decreases j + if more {
                1int
            } else {
                0int
            },
        {
            if list_before_eq_exec(&store.tasks[v[j - 1]], &store.tasks[v[j]]) {
                more = false;
            } else {
                let ghost prev = v@;
                let x = v[j - 1];
                let y = v[j];
                v.set(j - 1, y);
                v.set(j, x);
                proof {
                    assert(prev.update(j - 1, y)[j as int] == prev[j as int]);
                    assert(list_before_eq(
                        store.tasks@[v@[j - 1] as int],
                        store.tasks@[v@[j as int] as int],
                    ));
                    assert forall|i2: int| #[trigger]
                        has_idx(v@, i2) <==> has_idx(prev, i2) by {
                        if has_idx(v@, i2) {
                            let k = choose|k: int|
                                0 <= k < v@.len() && (#[trigger] v@[k]) as int == i2;
                            let src = if k == j - 1 {
                                j as int
                            } else if k == j {
                                j - 1
                            } else {
                                k
                            };
                            assert(prev[src] as int == i2);
                        }
                        if has_idx(prev, i2) {
                            let k = choose|k: int|
                                0 <= k < prev.len() && (#[trigger] prev[k]) as int == i2;
                            let dst = if k == j - 1 {
                                j as int
                            } else if k == j {
                                j - 1
                            } else {
                                k
                            };
                            assert(v@[dst] as int == i2);
                        }
                    }
                    if idx_distinct(prev) {
                        assert forall|a: int, b: int|
                            0 <= a < v@.len() && 0 <= b < v@.len() && a != b implies (
                        #[trigger] v@[a]) != (#[trigger] v@[b]) by {
                            let sa = if a == j - 1 {
                                j as int
                            } else if a == j {
                                j - 1
                            } else {
                                a
                            };
                            let sb = if b == j - 1 {
                                j as int
                            } else if b == j {
                                j - 1
                            } else {
                                b
                            };
                            assert(v@[a] == prev[sa] && v@[b] == prev[sb] && sa != sb);
                        }
                    }
                }
                j = j - 1;
            }
        }
        i = i + 1;
    }
}

/// One listing row is truthful for the task at index `i`.
pub open spec fn task_response_matches(s: Store, row: TaskResponse, i: int, now: int) -> bool {
    let t = s.tasks@[i];
    &&& row.task_id == t.id
    &&& row.title@ == t.title@
    &&& row.done == t.done
    &&& row.category_id == t.category_id
    &&& match t.category_id {
        Some(c) => {
            &&& row.category_name is Some
            &&& row.color is Some
            &&& exists|ci: int|
                0 <= ci < s.categories@.len() && (#[trigger] s.categories@[ci]).id == c
                    && row.category_name->0@ == s.categories@[ci].name@ && row.color->0@
                    == s.categories@[ci].color@
        },
        None => row.category_name is None && row.color is None,
    }
    &&& row.total_duration_seconds == task_closed_seconds(s, t.id, now)
    &&& row.today_duration_seconds == task_closed_today_seconds(
        s,
        t.id,
        now / (SECONDS_PER_DAY as int),
        now,
    )
    &&& match t.completed_at {
        Some(c) => row.completed_at is Some && row.completed_at->0@ == datetime_string(c as int),
        None => row.completed_at is None,
    }
    &&& row.session_seconds == open_elapsed_for(s.entries@, t.id, now)
}

/// The page offset a query asks for.
pub open spec fn page_offset(q: TaskQuery) -> int {
    if q.page_index >= 1 {
        (q.page_index - 1) * q.page_size
    } else {
        0
    }
}

/// The page rows stand for the index list `idx`: exactly the matching
/// tasks, in listing order, with the rows the asked-for slice of it.
pub open spec fn tasks_listed(
    s: Store,
    q: TaskQuery,
    rows: Seq<TaskResponse>,
    idx: Seq<usize>,
    now: int,
) -> bool {
    let off = page_offset(q);
    let total = idx.len() as int;
    let slice = if off >= total {
        0int
    } else if total - off <= q.page_size {
        total - off
    } else {
        q.page_size as int
    };
    &&& idx_distinct(idx)
    &&& total == count_matching(s.tasks@, q)
    &&& forall|k: int|
        0 <= k < idx.len() ==> ((#[trigger] idx[k]) as int) < s.tasks@.len() && matches_query(
            s.tasks@[idx[k] as int],
            q,
        )
    &&& forall|i: int|
        0 <= i < s.tasks@.len() && matches_query(#[trigger] s.tasks@[i], q) ==> has_idx(idx, i)
    &&& forall|a: int, b: int|
        0 <= a < b < idx.len() ==> list_before_eq(
            s.tasks@[(#[trigger] idx[a]) as int],
            s.tasks@[(#[trigger] idx[b]) as int],
        )
    &&& rows.len() == slice
    &&& forall|k: int|
        0 <= k < rows.len() ==> task_response_matches(s, #[trigger] rows[k], idx[off + k] as int, now)
}

/// There is an index list the page stands for.
pub open spec fn tasks_page_ok(
    s: Store,
    q: TaskQuery,
    rows: Seq<TaskResponse>,
    now: int,
) -> bool {
    exists|idx: Seq<usize>| tasks_listed(s, q, rows, idx, now)
}

/// The name and color of a category, cloned.
#[verifier::loop_isolation(false)]
fn category_pair_of(store: &Store, cid: u32) -> (r: Option<(String, String)>)
    requires
        store.wf(),
    ensures
        match r {
            Some(nc) => exists|ci: int|
                0 <= ci < store.categories@.len() && (#[trigger] store.categories@[ci]).id == cid
                    && nc.0@ == store.categories@[ci].name@ && nc.1@
                    == store.categories@[ci].color@,
            None => !store.has_category(cid),
        },
{
    let mut i: usize = 0;
    while i < store.categories.len()
        invariant
            i <= store.categories@.len(),
            forall|k: int| 0 <= k < i ==> (#[trigger] store.categories@[k]).id != cid,
        decreases store.categories@.len() - i,
    {
        if store.categories[i].id == cid {
            return Some((store.categories[i].name.clone(), store.categories[i].color.clone()));
        }
        i = i + 1;
    }
    None
}

/// Lists tasks: filtered by name substring and status (Finished hidden by
/// default), ordered by status then newest first, and cut to the asked-for
/// page. The total counts all matching tasks; when nothing matches, the
/// empty page is returned at once.
#[verifier::loop_isolation(false)]
#[verifier::rlimit(60)]
pub fn list_tasks_impl(store: &Store, req: &TaskQuery, now: i64) -> (r: PaginatedResponse<
    TaskResponse,
>)
    requires
        store.wf(),
        store.clock <= now <= MAX_TIMESTAMP,
        total_all(*store, now as int) <= i64::MAX,
    ensures
        r.total == count_matching(store.tasks@, *req),
        r.page_index == req.page_index,
        r.page_size == req.page_size,
        tasks_page_ok(*store, *req, r.data@, now as int),
{
    let ghost nowi = now as int;
    let n = store.tasks.len();
    let mut mi: Vec<usize> = Vec::new();
    let mut i: usize = 0;
    while i < n
        invariant
            n == store.tasks@.len(),
            i <= n,
            mi@.len() == count_matching(store.tasks@.take(i as int), *req),
            forall|k: int|
                0 <= k < mi@.len() ==> ((#[trigger] mi@[k]) as int) < i as int && matches_query(
                    store.tasks@[mi@[k] as int],
                    *req,
                ),
            forall|a: int, b: int| 0 <= a < b < mi@.len() ==> mi@[a] < mi@[b],
            forall|i2: int|
                0 <= i2 < i as int && matches_query(#[trigger] store.tasks@[i2], *req) ==> has_idx(
                    mi@,
                    i2,
                ),
        decreases n - i,
    {
        proof {
            lemma_count_matching_take_succ(store.tasks@, *req, i as int);
            lemma_count_matching_bounds(store.tasks@.take(i as int), *req);
        }
        let t = &store.tasks[i];
        let name_ok = match &req.task_name {
            Some(nm) => str_contains(t.title.as_str(), nm.as_str()),
            None => true,
        };
        let status_ok = match req.done {
            Some(s) => t.done == s,
            None => t.done != TaskStatus::Finished,
        };
        if name_ok && status_ok {
            let ghost before = mi@;
            mi.push(i);
            proof {
                assert forall|i2: int|
                    0 <= i2 < i as int + 1 && matches_query(#[trigger] store.tasks@[i2], *req)
                        implies has_idx(mi@, i2) by {
                    if i2 < i as int {
                        assert(has_idx(before, i2));
                        let k = choose|k: int|
                            0 <= k < before.len() && (#[trigger] before[k]) as int == i2;
                        assert(mi@[k] as int == i2);
                    } else {
                        assert(mi@[mi@.len() - 1] as int == i2);
                    }
                }
            }
        } else {
            proof {
                assert forall|i2: int|
                    0 <= i2 < i as int + 1 && matches_query(#[trigger] store.tasks@[i2], *req)
                        implies has_idx(mi@, i2) by {
                    assert(i2 != i as int);
                }
            }
        }
        i = i + 1;
    }
    proof {
        assert(store.tasks@.take(n as int) =~= store.tasks@);
        lemma_count_matching_bounds(store.tasks@, *req);
    }
    let total32: u32 = mi.len() as u32;
    if total32 == 0 {
        let r = PaginatedResponse::<TaskResponse>::empty(req.page_index, req.page_size);
        proof {
            assert(tasks_listed(*store, *req, r.data@, mi@, nowi));
        }
        return r;
    }
    let ghost good = |k: usize|
        (k as int) < store.tasks@.len() && matches_query(store.tasks@[k as int], *req);
    proof {
        assert forall|k: int| 0 <= k < mi@.len() implies good(#[trigger] mi@[k]) by {}
        assert(idx_distinct(mi@));
    }
    sort_task_indices(store, &mut mi, Ghost(good));
    let total = mi.len();
    proof {
        assert(((req.page_index - 1) as int) * (req.page_size as int) < 0x1_0000_0000_0000_0000)
            by (nonlinear_arith)
            requires
                req.page_index as int <= 0xffff_ffff && req.page_size as int <= 0xffff_ffff,
        ;
    }
    let off64: u64 = if req.page_index >= 1 {
        ((req.page_index - 1) as u64) * (req.page_size as u64)
    } else {
        0
    };
    let start: usize = if off64 >= total as u64 {
        total
    } else {
        off64 as usize
    };
    let end: usize = if total - start <= req.page_size as usize {
        total
    } else {
        start + req.page_size as usize
    };
    let mut rows: Vec<TaskResponse> = Vec::new();
    let mut k: usize = start;
    let today = now / SECONDS_PER_DAY;
    while k < end
        invariant
            start <= k <= end <= total,
            total == mi@.len(),
            rows@.len() == k - start,
            forall|k2: int| 0 <= k2 < total ==> good(#[trigger] mi@[k2]),
            forall|k2: int|
                0 <= k2 < rows@.len() ==> task_response_matches(
                    *store,
                    #[trigger] rows@[k2],
                    mi@[start + k2] as int,
                    nowi,
                ),
        decreases end - k,
    {
        let ti = mi[k];
        let t = &store.tasks[ti];
        proof {
            assert(store.task_wf(store.tasks@[ti as int]));
            assert(store.tasks@[ti as int].id as int == ti as int + 1);
            assert(count_open_for(store.entries@, store.tasks@[ti as int].id) <= 1);
        }
        let (category_name, color): (Option<String>, Option<String>) = match t.category_id {
            Some(c) => {
                match category_pair_of(store, c) {
                    Some(p) => (Some(p.0), Some(p.1)),
                    None => {
                        proof {
                            assert(false);
                        }
                        (None, None)
                    },
                }
            },
            None => (None, None),
        };
        let sums = closed_sums_of(store, t.id, today, now);
        let session_seconds = session_seconds_of(store, t.id, now);
        let completed_at: Option<String> = match t.completed_at {
            Some(c) => {
                proof {
                    assert(store.task_wf(store.tasks@[ti as int]));
                }
                Some(format_datetime(c))
            },
            None => None,
        };
        let row = TaskResponse {
            task_id: t.id,
            title: t.title.clone(),
            done: t.done,
            category_id: t.category_id,
            category_name,
            color,
            total_duration_seconds: sums.0,
            today_duration_seconds: sums.1,
            completed_at,
            session_seconds,
        };
        rows.push(row);
        k = k + 1;
    }
    proof {
        assert(tasks_listed(*store, *req, rows@, mi@, nowi));
    }
    PaginatedResponse::new(rows, total32, req.page_index, req.page_size)
}

} // verus!
