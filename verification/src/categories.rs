//! Category listing and maintenance.
//!
//! Categories are referenced by tasks; a category that tasks still point at
//! must not be removed, which surfaces as [`ZapError::CategoryHasTasks`].

use vstd::prelude::*;
use crate::error::ZapError;
use crate::store::Category;
use crate::store::Store;
use crate::date::MAX_TIMESTAMP;

verus! {

/// One category as returned to callers.
#[derive(Debug, Clone)]
pub struct CategoryResponse {
    /// The category's id.
    pub id: u32,
    /// The display name.
    pub name: String,
    /// The display color.
    pub color: String,
}

/// All categories, in stored (id) order.
#[verifier::loop_isolation(false)]
pub fn list_categories_impl(store: &Store) -> (r: Vec<CategoryResponse>)
    requires
        store.wf(),
    ensures
        r@.len() == store.categories@.len(),
        forall|i: int|
            0 <= i < r@.len() ==> {
                &&& (#[trigger] r@[i]).id == store.categories@[i].id
                &&& r@[i].name@ == store.categories@[i].name@
                &&& r@[i].color@ == store.categories@[i].color@
            },
{
    let mut out: Vec<CategoryResponse> = Vec::new();
    let mut i: usize = 0;
    while i < store.categories.len()
        invariant
            i <= store.categories@.len(),
            out@.len() == i,
            forall|k: int|
                0 <= k < i ==> {
                    &&& (#[trigger] out@[k]).id == store.categories@[k].id
                    &&& out@[k].name@ == store.categories@[k].name@
                    &&& out@[k].color@ == store.categories@[k].color@
                },
        decreases store.categories@.len() - i,
    {
        let c = &store.categories[i];
        out.push(CategoryResponse { id: c.id, name: c.name.clone(), color: c.color.clone() });
        i = i + 1;
    }
    out
}

/// Adds a category and returns its id; fails with `InvalidCategoryData`
/// exactly when the name is empty.
pub fn add_category_impl(store: &mut Store, name: String, color: String, now: i64) -> (r: Result<
    u32,
    ZapError,
>)
    requires
        old(store).wf(),
        old(store).clock <= now <= MAX_TIMESTAMP,
        old(store).next_category_id < 0xffff_ffffu32,
    ensures
        final(store).wf(),
        r is Ok <==> name@.len() > 0,
        match r {
            Ok(id) => {
                &&& id == old(store).next_category_id
                &&& final(store).categories@ == old(store).categories@.push(
                    Category { id, name, color },
                )
                &&& final(store).next_category_id == old(store).next_category_id + 1
                &&& final(store).tasks@ == old(store).tasks@
                &&& final(store).entries@ == old(store).entries@
                &&& final(store).focuses@ == old(store).focuses@
                &&& final(store).clock == now
            },
            Err(e) => {
                &&& e is InvalidCategoryData
                &&& *final(store) == *old(store)
            },
        },
{
    if name.as_str().is_empty() {
        return Err(ZapError::InvalidCategoryData("category name cannot be empty"));
    }
    let id = store.next_category_id;
    store.categories.push(Category { id, name, color });
    store.next_category_id = id + 1;
    store.clock = now;
    proof {
        let oldc = old(store).categories@;
        let newc = store.categories@;
        assert(forall|i: int| 0 <= i < oldc.len() ==> newc[i] == oldc[i]);
        assert(newc[oldc.len() as int].id == old(store).next_category_id);
        assert forall|i: int|
            0 <= i < store.tasks@.len() && (#[trigger] store.tasks@[i]).category_id is Some
                implies store.has_category(store.tasks@[i].category_id->0) by {
            let c = store.tasks@[i].category_id->0;
            assert(old(store).has_category(c));
            let w = choose|w: int| 0 <= w < oldc.len() && (#[trigger] oldc[w]).id == c;
            assert(newc[w] == oldc[w]);
        };
    }
    Ok(id)
}

/// Removes the category with the given id.
///
/// Fails with `CategoryNotFound` when no such category exists, and with
/// `CategoryHasTasks` when any task still references it; only a category no
/// task points at is removed.
pub fn remove_category_impl(store: &mut Store, id: u32, now: i64) -> (r: Result<(), ZapError>)
    requires
        old(store).wf(),
        old(store).clock <= now <= MAX_TIMESTAMP,
    ensures
        final(store).wf(),
        r is Ok <==> old(store).has_category(id) && (forall|i: int|
            0 <= i < old(store).tasks@.len() ==> (#[trigger] old(store).tasks@[i]).category_id
                != Some(id)),
        match r {
            Ok(u) => {
                &&& exists|idx: int|
                    0 <= idx < old(store).categories@.len() && (#[trigger] old(
                        store,
                    ).categories@[idx]).id == id && final(store).categories@ == old(
                        store,
                    ).categories@.remove(idx)
                &&& final(store).next_category_id == old(store).next_category_id
                &&& final(store).tasks@ == old(store).tasks@
                &&& final(store).entries@ == old(store).entries@
                &&& final(store).focuses@ == old(store).focuses@
                &&& final(store).clock == now
            },
            Err(e) => {
                &&& *final(store) == *old(store)
                &&& (e == ZapError::CategoryNotFound(id) <==> !old(store).has_category(id))
                &&& (e == ZapError::CategoryHasTasks <==> old(store).has_category(id))
            },
        },
{
    let n = store.categories.len();
    let mut idx: usize = 0;
    let mut found: bool = false;
    #[verifier::loop_isolation(false)]
    while idx < n && !found
        invariant
            *store == *old(store),
            n == store.categories@.len(),
            idx <= n,
            !found ==> forall|k: int|
                0 <= k < idx ==> (#[trigger] store.categories@[k]).id != id,
            found ==> idx < n && store.categories@[idx as int].id == id,
        decreases n - idx + if found {
            0int
        } else {
            1int
        },
    {
        if store.categories[idx].id == id {
            found = true;
        } else {
            idx = idx + 1;
        }
    }
    if !found {
        return Err(ZapError::CategoryNotFound(id));
    }
    let tn = store.tasks.len();
    let mut t: usize = 0;
    #[verifier::loop_isolation(false)]
    while t < tn
        invariant
            *store == *old(store),
            tn == store.tasks@.len(),
            t <= tn,
            forall|k: int|
                0 <= k < t ==> (#[trigger] store.tasks@[k]).category_id != Some(id),
        decreases tn - t,
    {
        let refers = match store.tasks[t].category_id {
            Some(c) => c == id,
            None => false,
        };
        if refers {
            return Err(ZapError::CategoryHasTasks);
        }
        t = t + 1;
    }
    store.categories.remove(idx);
    store.clock = now;
    proof {
        let oidx = idx as int;
        let oldcats = old(store).categories@;
        assert(store.categories@ == oldcats.remove(oidx));
        assert forall|i: int, j: int|
            0 <= i < j < store.categories@.len() implies (#[trigger] store.categories@[i]).id != (
        #[trigger] store.categories@[j]).id by {
            let i0 = if i < oidx {
                i
            } else {
                i + 1
            };
            let j0 = if j < oidx {
                j
            } else {
                j + 1
            };
            assert(store.categories@[i] == oldcats[i0]);
            assert(store.categories@[j] == oldcats[j0]);
        };
        assert forall|i: int|
            0 <= i < store.tasks@.len() && (#[trigger] store.tasks@[i]).category_id is Some
                implies store.has_category(store.tasks@[i].category_id->0) by {
            let c = store.tasks@[i].category_id->0;
            assert(c != id);
            let w = choose|w: int| 0 <= w < oldcats.len() && (#[trigger] oldcats[w]).id == c;
            if w < oidx {
                assert(store.categories@[w] == oldcats[w]);
            } else {
                assert(w != oidx);
                assert(store.categories@[w - 1] == oldcats[w]);
            }
        };
    }
    Ok(())
}

} // verus!
