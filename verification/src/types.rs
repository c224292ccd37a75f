//! Shared response shapes: pagination.

use vstd::prelude::*;

verus! {

/// One page of a paginated listing.
#[derive(Debug)]
pub struct PaginatedResponse<T> {
    /// The records of the current page.
    pub data: Vec<T>,
    /// How many records match the query over all pages.
    pub total: u32,
    /// The page number, counted from 1.
    pub page_index: u32,
    /// The page size the query asked for.
    pub page_size: u32,
}

impl<T> PaginatedResponse<T> {
    /// A page carrying `data` out of `total` matching records.
    pub fn new(data: Vec<T>, total: u32, page_index: u32, page_size: u32) -> (r: Self)
        ensures
            r.data == data,
            r.total == total,
            r.page_index == page_index,
            r.page_size == page_size,
    {
        Self { data, total, page_index, page_size }
    }

    /// The empty page returned when nothing matches the query.
    pub fn empty(page_index: u32, page_size: u32) -> (r: Self)
        ensures
            r.data@ =~= Seq::<T>::empty(),
            r.total == 0,
            r.page_index == page_index,
            r.page_size == page_size,
    {
        Self { data: Vec::new(), total: 0, page_index, page_size }
    }
}

} // verus!
