//! The daily-focus sibling table: one free-text row per calendar date with a
//! done flag, created on first write for a date and updated thereafter.

use vstd::prelude::*;
use vstd::pervasive::VecAdditionalExecFns;
use crate::error::ZapError;
use crate::store::Store;
use crate::date::MAX_TIMESTAMP;

verus! {

/// One daily-focus row.
#[derive(Debug, Clone)]
pub struct DailyFocus {
    /// The row id; ids are assigned sequentially from 1.
    pub id: u32,
    /// The calendar date the row belongs to; unique per row.
    pub focus_date: String,
    /// Free-text content.
    pub content: String,
    /// Whether the focus is marked done.
    pub is_done: bool,
    /// The ordering position.
    pub position: i32,
    /// When the row was created.
    pub created_at: i64,
    /// When the row was last changed.
    pub updated_at: i64,
}

/// The write request for a date's focus row.
#[derive(Debug, Clone)]
pub struct UpsertDailyFocusRequest {
    /// The calendar date the row belongs to.
    pub date: String,
    /// The new content.
    pub content: String,
}

/// A copy of one focus row, built field by field.
fn clone_focus(f: &DailyFocus) -> (r: DailyFocus)
    ensures
        r == *f,
{
    let r = DailyFocus {
        id: f.id,
        focus_date: f.focus_date.clone(),
        content: f.content.clone(),
        is_done: f.is_done,
        position: f.position,
        created_at: f.created_at,
        updated_at: f.updated_at,
    };
    proof {
        assert(r == *f);
    }
    r
}

/// The row for `date`, if one exists.
///
/// Returns `Some` exactly when the store holds a row whose date equals
/// `date`; dates are unique, so the row is the one at the returned value's
/// id.
#[verifier::loop_isolation(false)]
pub fn get_daily_focus_impl(store: &Store, date: &String) -> (r: Option<DailyFocus>)
    requires
        store.wf(),
    ensures
        match r {
            Some(f) => exists|i: int|
                0 <= i < store.focuses@.len() && #[trigger] store.focuses@[i] == f
                    && f.focus_date@ == date@,
            None => forall|i: int|
                0 <= i < store.focuses@.len() ==> (#[trigger] store.focuses@[i]).focus_date@
                    != date@,
        },
{
    let n = store.focuses.len();
    let mut i: usize = 0;
    while i < n
        invariant
            n == store.focuses@.len(),
            i <= n,
            forall|k: int|
                0 <= k < i ==> (#[trigger] store.focuses@[k]).focus_date@ != date@,
        decreases n - i,
    {
        if store.focuses[i].focus_date == *date {
            return Some(clone_focus(&store.focuses[i]));
        }
        i = i + 1;
    }
    None
}

/// Writes the focus row for a date: updates the content of an existing row,
/// or inserts a fresh one, and returns the row as stored.
///
/// The store is unchanged except for that one row and the clock.
#[verifier::loop_isolation(false)]
pub fn upsert_daily_focus_impl(store: &mut Store, req: &UpsertDailyFocusRequest, now: i64) -> (r:
    DailyFocus)
    requires
        old(store).wf(),
        old(store).clock <= now <= MAX_TIMESTAMP,
        old(store).focuses@.len() < 0xffff_ffff,
    ensures
        final(store).wf(),
        final(store).clock == now,
        final(store).categories@ == old(store).categories@,
        final(store).next_category_id == old(store).next_category_id,
        final(store).tasks@ == old(store).tasks@,
        final(store).entries@ == old(store).entries@,
        r.focus_date@ == req.date@,
        r.content@ == req.content@,
        r.updated_at == now,
        (exists|i: int|
            0 <= i < old(store).focuses@.len() && (#[trigger] old(store).focuses@[i]).focus_date@
                == req.date@) ==> {
            &&& final(store).focuses@.len() == old(store).focuses@.len()
            &&& forall|i: int|
                0 <= i < old(store).focuses@.len() && (#[trigger] old(
                    store,
                ).focuses@[i]).focus_date@ != req.date@ ==> final(store).focuses@[i] == old(
                    store,
                ).focuses@[i]
            &&& forall|i: int|
                0 <= i < old(store).focuses@.len() && (#[trigger] old(
                    store,
                ).focuses@[i]).focus_date@ == req.date@ ==> final(store).focuses@[i] == r
                    && r == (DailyFocus { content: r.content, updated_at: now, ..old(
                    store,
                ).focuses@[i] })
        },
        (forall|i: int|
            0 <= i < old(store).focuses@.len() ==> (#[trigger] old(store).focuses@[i]).focus_date@
                != req.date@) ==> {
            &&& final(store).focuses@ == old(store).focuses@.push(r)
            &&& r.id as int == old(store).focuses@.len() + 1
            &&& r.is_done == false
            &&& r.position == 0
            &&& r.created_at == now
        },
{
    let n = store.focuses.len();
    let mut i: usize = 0;
    while i < n
        invariant
            *store == *old(store),
            n == store.focuses@.len(),
            i <= n,
            forall|k: int|
                0 <= k < i ==> (#[trigger] store.focuses@[k]).focus_date@ != req.date@,
        decreases n - i,
    {
        if store.focuses[i].focus_date == req.date {
            let updated = DailyFocus {
                id: store.focuses[i].id,
                focus_date: store.focuses[i].focus_date.clone(),
                content: req.content.clone(),
                is_done: store.focuses[i].is_done,
                position: store.focuses[i].position,
                created_at: store.focuses[i].created_at,
                updated_at: now,
            };
            let r = clone_focus(&updated);
            store.focuses.set(i, updated);
            store.clock = now;
            proof {
                let oi = i as int;
                assert forall|k: int|
                    0 <= k < old(store).focuses@.len() && (#[trigger] old(
                        store,
                    ).focuses@[k]).focus_date@ == req.date@ implies store.focuses@[k] == r by {
                    if k != oi {
                        assert(old(store).focuses@[k].focus_date@ != old(
                            store,
                        ).focuses@[oi].focus_date@);
                    }
                };
                assert(r == (DailyFocus {
                    content: r.content,
                    updated_at: now,
                    ..old(store).focuses@[oi]
                }));
            }
            return r;
        }
        i = i + 1;
    }
    let fresh = DailyFocus {
        id: (n as u32) + 1,
        focus_date: req.date.clone(),
        content: req.content.clone(),
        is_done: false,
        position: 0,
        created_at: now,
        updated_at: now,
    };
    let r = clone_focus(&fresh);
    store.focuses.push(fresh);
    store.clock = now;
    r
}

/// Flips the done flag of the focus row with the given id and returns the
/// row as stored; fails with `TaskNotFound` when no such row exists, as the
/// surrounding application does.
pub fn toggle_daily_focus_impl(store: &mut Store, id: u32, now: i64) -> (r: Result<
    DailyFocus,
    ZapError,
>)
    requires
        old(store).wf(),
        old(store).clock <= now <= MAX_TIMESTAMP,
    ensures
        final(store).wf(),
        final(store).categories@ == old(store).categories@,
        final(store).next_category_id == old(store).next_category_id,
        final(store).tasks@ == old(store).tasks@,
        final(store).entries@ == old(store).entries@,
        match r {
            Ok(f) => {
                &&& 1 <= id <= old(store).focuses@.len()
                &&& final(store).clock == now
                &&& f == (DailyFocus {
                    is_done: !old(store).focuses@[id - 1].is_done,
                    updated_at: now,
                    ..old(store).focuses@[id - 1]
                })
                &&& final(store).focuses@ == old(store).focuses@.update(id - 1, f)
            },
            Err(e) => {
                &&& e == ZapError::TaskNotFound(id)
                &&& !(1 <= id <= old(store).focuses@.len())
                &&& *final(store) == *old(store)
            },
        },
{
    if id == 0 || id as usize > store.focuses.len() {
        return Err(ZapError::TaskNotFound(id));
    }
    let i = (id - 1) as usize;
    let updated = DailyFocus {
        id: store.focuses[i].id,
        focus_date: store.focuses[i].focus_date.clone(),
        content: store.focuses[i].content.clone(),
        is_done: !store.focuses[i].is_done,
        position: store.focuses[i].position,
        created_at: store.focuses[i].created_at,
        updated_at: now,
    };
    let r = clone_focus(&updated);
    store.focuses.set(i, updated);
    store.clock = now;
    Ok(r)
}

} // verus!
