//! Type-keyed arena storage with stable per-type columns.
//!
//! Each value type gets a column of its own, keyed by its `TypeId`, that
//! keeps its index for the lifetime of the store, so callers can cache
//! that index (a [`ColumnId`]) and skip the lookup on later access.
use vstd::prelude::*;

mod any_index_map;
mod any_sparse_map;
mod column_index;
pub mod id;
pub mod type_pool;

verus! {

/// Index of a per-type column.
///
/// Stable for the lifetime of its store: a type's column keeps the same id
/// once created, so callers can cache the id to skip the `TypeId` lookup on
/// later access.
#[derive(Debug, Clone, Copy, PartialEq, Eq, Structural, Hash)]
pub struct ColumnId(usize);

impl View for ColumnId {
    type V = usize;

    closed spec fn view(&self) -> usize {
        self.0
    }
}

impl ColumnId {
    /// A sentinel id that will never refer to a live column.
    #[allow(non_snake_case)]
    pub fn PLACEHOLDER() -> (col: Self)
        ensures
            col@ == usize::MAX,
    {
        ColumnId(usize::MAX)
    }

    /// Creates a column id from its index in the store's column vector.
    pub(crate) fn new(index: usize) -> (col: Self)
        ensures
            col@ == index,
    {
        ColumnId(index)
    }

    /// The index of this column in its store.
    pub fn index(self) -> (index: usize)
        ensures
            index == self@,
    {
        self.0
    }
}

} // verus!
