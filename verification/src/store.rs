//! The data model: categories, tasks, the time-entry ledger, and the
//! in-memory store that stands for the relational tables of the surrounding
//! application.
//!
//! The store carries a monotonic clock: every mutating operation takes the
//! current time, which may never run backwards. All timestamps are seconds
//! since the epoch, within the supported calendar range.

use vstd::prelude::*;
use crate::daily_focus::DailyFocus;
use crate::date::MAX_TIMESTAMP;
use crate::text::session_note;

verus! {

/// The lifecycle state of a task.
#[derive(Debug, Clone, Copy, PartialEq, Eq, Structural)]
pub enum TaskStatus {
    /// Not yet started, or stopped again.
    Todo,
    /// Currently being worked on: exactly one open ledger entry exists.
    Running,
    /// Completed.
    Finished,
}

/// The numeric rank of a status, used for ordering task listings.
pub open spec fn status_code(s: TaskStatus) -> int {
    match s {
        TaskStatus::Todo => 0,
        TaskStatus::Running => 1,
        TaskStatus::Finished => 2,
    }
}

/// A category a task may belong to.
#[derive(Debug, Clone)]
pub struct Category {
    /// The category's id, unique within the store.
    pub id: u32,
    /// A non-empty display name.
    pub name: String,
    /// A display color such as `#FF0000`.
    pub color: String,
}

/// One task row.
#[derive(Debug, Clone)]
pub struct Tasks {
    /// The task's id; ids are assigned sequentially from 1.
    pub id: u32,
    /// A non-empty title.
    pub title: String,
    /// The lifecycle state.
    pub done: TaskStatus,
    /// The category the task belongs to, if any.
    pub category_id: Option<u32>,
    /// An optional estimate, in seconds.
    pub estimate_seconds: Option<i64>,
    /// Free-text notes.
    pub notes: Option<String>,
    /// Whether the task is on the daily shortlist.
    pub is_today_focus: bool,
    /// When the task was created.
    pub created_at: i64,
    /// When the task was last changed.
    pub updated_at: i64,
    /// When the task was finished; set exactly while the status is Finished.
    pub completed_at: Option<i64>,
}

/// One work session in the append-only ledger.
#[derive(Debug, Clone)]
pub struct TimeEntry {
    /// The entry's id; ids are assigned sequentially from 1.
    pub id: u32,
    /// The task the session belongs to.
    pub task_id: u32,
    /// When the session began.
    pub started_at: i64,
    /// When the session ended; `None` while the session is open.
    pub ended_at: Option<i64>,
    /// The frozen whole-second duration; present exactly when closed.
    pub duration_seconds: Option<i64>,
    /// The human label `"<task title> #<ordinal>"`.
    pub note: String,
}

/// How many ledger entries belong to task `tid`.
pub open spec fn count_entries_for(s: Seq<TimeEntry>, tid: u32) -> int
    decreases s.len(),
{
    if s.len() == 0 {
        0
    } else {
        count_entries_for(s.drop_last(), tid) + if s.last().task_id == tid {
            1int
        } else {
            0int
        }
    }
}

/// How many open ledger entries belong to task `tid`.
pub open spec fn count_open_for(s: Seq<TimeEntry>, tid: u32) -> int
    decreases s.len(),
{
    if s.len() == 0 {
        0
    } else {
        count_open_for(s.drop_last(), tid) + if s.last().task_id == tid && s.last().ended_at
            is None {
            1int
        } else {
            0int
        }
    }
}

/// Total live elapsed time of the open entries of task `tid` at time `now`.
pub open spec fn open_elapsed_for(s: Seq<TimeEntry>, tid: u32, now: int) -> int
    decreases s.len(),
{
    if s.len() == 0 {
        0
    } else {
        open_elapsed_for(s.drop_last(), tid, now) + if s.last().task_id == tid && s.last().ended_at
            is None {
            now - s.last().started_at
        } else {
            0int
        }
    }
}

/// An entry that opens a new session: started now, no end, no duration, and
/// the note of the given ordinal.
pub open spec fn is_opening_entry(
    e: TimeEntry,
    id: u32,
    task_id: u32,
    title: Seq<char>,
    ordinal: int,
    now: i64,
) -> bool {
    e.id == id && e.task_id == task_id && e.started_at == now && e.ended_at is None
        && e.duration_seconds is None && e.note@ == session_note(title, ordinal)
}

/// `e` closed at `now`: the end is recorded and the duration frozen as the
/// whole-second difference.
pub open spec fn closed_entry(e: TimeEntry, now: i64) -> TimeEntry {
    TimeEntry { ended_at: Some(now), duration_seconds: Some((now - e.started_at) as i64), ..e }
}

/// The ledger after closing every open entry of task `tid` at `now`; all
/// other entries are untouched.
pub open spec fn close_open_for(s: Seq<TimeEntry>, tid: u32, now: i64) -> Seq<TimeEntry> {
    Seq::new(
        s.len(),
        |j: int|
            if s[j].task_id == tid && s[j].ended_at is None {
                closed_entry(s[j], now)
            } else {
                s[j]
            },
    )
}

/// The in-memory relational store: three tables, the daily-focus sibling
/// table, and the clock.
#[derive(Debug)]
pub struct Store {
    /// The category table.
    pub categories: Vec<Category>,
    /// The id the next category will get; larger than every category id.
    pub next_category_id: u32,
    /// The task table; `tasks[i].id == i + 1`.
    pub tasks: Vec<Tasks>,
    /// The append-only ledger; `entries[i].id == i + 1`.
    pub entries: Vec<TimeEntry>,
    /// The daily-focus table; `focuses[i].id == i + 1`.
    pub focuses: Vec<DailyFocus>,
    /// The largest time any operation has seen so far.
    pub clock: i64,
}

impl Store {
    /// A task with id `tid` exists.
    pub open spec fn has_task(self, tid: u32) -> bool {
        1 <= tid <= self.tasks@.len()
    }

    /// The task row with id `tid`.
    pub open spec fn task_of(self, tid: u32) -> Tasks {
        self.tasks@[tid - 1]
    }

    /// A category with id `cid` exists.
    pub open spec fn has_category(self, cid: u32) -> bool {
        exists|i: int| 0 <= i < self.categories@.len() && (#[trigger] self.categories@[i]).id == cid
    }

    /// Task ids are the row positions, counted from 1.
    pub open spec fn task_ids_wf(self) -> bool {
        forall|i: int|
            0 <= i < self.tasks@.len() ==> (#[trigger] self.tasks@[i]).id as int == i + 1
    }

    /// Entry ids are the row positions, counted from 1.
    pub open spec fn entry_ids_wf(self) -> bool {
        forall|i: int|
            0 <= i < self.entries@.len() ==> (#[trigger] self.entries@[i]).id as int == i + 1
    }

    /// Category ids are unique, positive, below the next free id, and names
    /// are never empty.
    pub open spec fn categories_wf(self) -> bool {
        &&& self.next_category_id >= 1
        &&& forall|i: int|
            0 <= i < self.categories@.len() ==> 1 <= (#[trigger] self.categories@[i]).id
                < self.next_category_id
        &&& forall|i: int, j: int|
            0 <= i < j < self.categories@.len() ==> (#[trigger] self.categories@[i]).id != (
            #[trigger] self.categories@[j]).id
        &&& forall|i: int|
            0 <= i < self.categories@.len() ==> (#[trigger] self.categories@[i]).name@.len() > 0
    }

    /// The clock lies in the supported calendar range.
    pub open spec fn clock_wf(self) -> bool {
        0 <= self.clock <= MAX_TIMESTAMP
    }

    /// One task row is well formed.
    pub open spec fn task_wf(self, t: Tasks) -> bool {
        &&& t.title@.len() > 0
        &&& 0 <= t.created_at <= self.clock
        &&& 0 <= t.updated_at <= self.clock
        &&& (t.completed_at is Some <==> t.done == TaskStatus::Finished)
        &&& match t.completed_at {
            Some(c) => 0 <= c <= self.clock,
            None => true,
        }
        &&& match t.category_id {
            Some(c) => self.has_category(c),
            None => true,
        }
    }

    /// Every task row is well formed.
    pub open spec fn tasks_wf(self) -> bool {
        forall|i: int| 0 <= i < self.tasks@.len() ==> self.task_wf(#[trigger] self.tasks@[i])
    }

    /// One ledger entry is well formed: it belongs to an existing task, its
    /// times lie within the clock, and the end and the frozen duration are
    /// present together and agree.
    pub open spec fn entry_wf(self, e: TimeEntry) -> bool {
        &&& self.has_task(e.task_id)
        &&& 0 <= e.started_at <= self.clock
        &&& (e.ended_at is Some <==> e.duration_seconds is Some)
        &&& match (e.ended_at, e.duration_seconds) {
            (Some(en), Some(d)) => e.started_at <= en <= self.clock && d == en - e.started_at,
            _ => true,
        }
    }

    /// Every ledger entry is well formed.
    pub open spec fn entries_wf(self) -> bool {
        forall|j: int| 0 <= j < self.entries@.len() ==> self.entry_wf(#[trigger] self.entries@[j])
    }

    /// A task is Running exactly when it has exactly one open entry.
    pub open spec fn open_matches_status(self) -> bool {
        forall|i: int|
            0 <= i < self.tasks@.len() ==> count_open_for(
                self.entries@,
                (#[trigger] self.tasks@[i]).id,
            ) == if self.tasks@[i].done == TaskStatus::Running {
                1int
            } else {
                0int
            }
    }

    /// An open entry is always the latest entry of its task.
    pub open spec fn open_is_last(self) -> bool {
        forall|j: int, k: int|
            0 <= j < k < self.entries@.len() && (#[trigger] self.entries@[j]).task_id == (
            #[trigger] self.entries@[k]).task_id ==> self.entries@[j].ended_at is Some
    }

    /// The title of the task a ledger entry belongs to.
    pub open spec fn title_of_task(self, tid: u32) -> Seq<char> {
        self.task_of(tid).title@
    }

    /// Every note reads `"<task title> #<ordinal>"`, where the ordinal counts
    /// the task's entries up to and including this one.
    pub open spec fn notes_wf(self) -> bool {
        forall|j: int|
            0 <= j < self.entries@.len() ==> (#[trigger] self.entries@[j]).note@ == session_note(
                self.title_of_task(self.entries@[j].task_id),
                count_entries_for(self.entries@.take(j), self.entries@[j].task_id) + 1,
            )
    }

    /// Daily-focus rows are well formed: sequential ids, unique dates,
    /// timestamps within the clock.
    pub open spec fn focuses_wf(self) -> bool {
        &&& forall|i: int|
            0 <= i < self.focuses@.len() ==> (#[trigger] self.focuses@[i]).id as int == i + 1
        &&& forall|i: int, j: int|
            0 <= i < j < self.focuses@.len() ==> (#[trigger] self.focuses@[i]).focus_date@ != (
            #[trigger] self.focuses@[j]).focus_date@
        &&& forall|i: int|
            0 <= i < self.focuses@.len() ==> 0 <= (#[trigger] self.focuses@[i]).created_at
                <= self.clock && 0 <= self.focuses@[i].updated_at <= self.clock
    }

    /// The store invariant.
    pub open spec fn wf(self) -> bool {
        &&& self.clock_wf()
        &&& self.categories_wf()
        &&& self.task_ids_wf()
        &&& self.tasks_wf()
        &&& self.entry_ids_wf()
        &&& self.entries_wf()
        &&& self.open_matches_status()
        &&& self.open_is_last()
        &&& self.notes_wf()
        &&& self.focuses_wf()
    }

    /// A fresh, empty store.
    pub fn new() -> (s: Store)
        ensures
            s.wf(),
            s.categories@.len() == 0,
            s.tasks@.len() == 0,
            s.entries@.len() == 0,
            s.focuses@.len() == 0,
            s.clock == 0,
            s.next_category_id == 1,
    {
        let s = Store {
            categories: Vec::new(),
            next_category_id: 1,
            tasks: Vec::new(),
            entries: Vec::new(),
            focuses: Vec::new(),
            clock: 0,
        };
        proof {
            assert(s.entries@.len() == 0);
        }
        s
    }
}

/// Appending an entry adjusts the per-task counters by exactly that entry.
pub proof fn lemma_counts_push(s: Seq<TimeEntry>, e: TimeEntry, tid: u32, now: int)
    ensures
        count_entries_for(s.push(e), tid) == count_entries_for(s, tid) + if e.task_id == tid {
            1int
        } else {
            0int
        },
        count_open_for(s.push(e), tid) == count_open_for(s, tid) + if e.task_id == tid
            && e.ended_at is None {
            1int
        } else {
            0int
        },
        open_elapsed_for(s.push(e), tid, now) == open_elapsed_for(s, tid, now) + if e.task_id
            == tid && e.ended_at is None {
            now - e.started_at
        } else {
            0int
        },
{
    assert(s.push(e).drop_last() =~= s);
    assert(s.push(e).last() == e);
}

/// A task with no open entries has none at any position.
pub proof fn lemma_no_open_entries(s: Seq<TimeEntry>, tid: u32)
    requires
        count_open_for(s, tid) == 0,
    ensures
        forall|j: int|
            0 <= j < s.len() ==> !((#[trigger] s[j]).task_id == tid && s[j].ended_at is None),
    decreases s.len(),
{
    if s.len() > 0 {
        lemma_count_open_nonneg(s.drop_last(), tid);
        lemma_no_open_entries(s.drop_last(), tid);
        assert(forall|j: int| 0 <= j < s.len() - 1 ==> s[j] == s.drop_last()[j]);
    }
}

/// Counters are never negative.
pub proof fn lemma_count_open_nonneg(s: Seq<TimeEntry>, tid: u32)
    ensures
        count_open_for(s, tid) >= 0,
        count_entries_for(s, tid) >= 0,
    decreases s.len(),
{
    if s.len() > 0 {
        lemma_count_open_nonneg(s.drop_last(), tid);
    }
}

/// Closing the open entries of one task zeroes its open counter, leaves
/// every other task's counter alone, and changes no per-task entry count.
pub proof fn lemma_counts_close(s: Seq<TimeEntry>, tid: u32, now: i64, tid2: u32)
    ensures
        count_open_for(close_open_for(s, tid, now), tid2) == if tid2 == tid {
            0int
        } else {
            count_open_for(s, tid2)
        },
        count_entries_for(close_open_for(s, tid, now), tid2) == count_entries_for(s, tid2),
    decreases s.len(),
{
    if s.len() == 0 {
        assert(close_open_for(s, tid, now) =~= Seq::<TimeEntry>::empty());
    } else {
        lemma_counts_close(s.drop_last(), tid, now, tid2);
        assert(close_open_for(s, tid, now).drop_last() =~= close_open_for(
            s.drop_last(),
            tid,
            now,
        ));
        assert(close_open_for(s, tid, now).last() == (if s.last().task_id == tid
            && s.last().ended_at is None {
            closed_entry(s.last(), now)
        } else {
            s.last()
        }));
    }
}

/// Taking a prefix commutes with closing a task's open entries.
pub proof fn lemma_close_take(s: Seq<TimeEntry>, tid: u32, now: i64, j: int)
    requires
        0 <= j <= s.len(),
    ensures
        close_open_for(s, tid, now).take(j) =~= close_open_for(s.take(j), tid, now),
{
}

/// Prefix entry counts only depend on the prefix.
pub proof fn lemma_count_take_push(s: Seq<TimeEntry>, e: TimeEntry, j: int, tid: u32)
    requires
        0 <= j <= s.len(),
    ensures
        count_entries_for(s.push(e).take(j), tid) == count_entries_for(s.take(j), tid),
{
    assert(s.push(e).take(j) =~= s.take(j));
}

/// Extending a prefix by one entry adjusts the counters by that entry.
pub proof fn lemma_counts_take_succ(s: Seq<TimeEntry>, j: int, tid: u32, now: int)
    requires
        0 <= j < s.len(),
    ensures
        count_entries_for(s.take(j + 1), tid) == count_entries_for(s.take(j), tid) + if s[j].task_id
            == tid {
            1int
        } else {
            0int
        },
        count_open_for(s.take(j + 1), tid) == count_open_for(s.take(j), tid) + if s[j].task_id
            == tid && s[j].ended_at is None {
            1int
        } else {
            0int
        },
        open_elapsed_for(s.take(j + 1), tid, now) == open_elapsed_for(s.take(j), tid, now) + if s[
            j
        ].task_id == tid && s[j].ended_at is None {
            now - s[j].started_at
        } else {
            0int
        },
{
    assert(s.take(j + 1).drop_last() =~= s.take(j));
    assert(s.take(j + 1).last() == s[j]);
}

/// A task none of the ledger's entries belong to has zero counters.
pub proof fn lemma_counts_absent(s: Seq<TimeEntry>, tid: u32)
    requires
        forall|j: int| 0 <= j < s.len() ==> (#[trigger] s[j]).task_id != tid,
    ensures
        count_entries_for(s, tid) == 0,
        count_open_for(s, tid) == 0,
    decreases s.len(),
{
    if s.len() > 0 {
        assert(forall|j: int| 0 <= j < s.len() - 1 ==> s.drop_last()[j] == s[j]);
        lemma_counts_absent(s.drop_last(), tid);
    }
}


} // verus!
