//! The index from value types to their columns.
use crate::ColumnId;
use core::any::TypeId;
use hashbrown::HashMap;
use vstd::prelude::*;

verus! {

/// The type-to-column index of a `TypePool`: a `hashbrown::HashMap` from
/// `TypeId` to the column made for that type. Its entries are what
/// [`column_index_entries`] gives.
#[verifier::external_body]
pub struct ColumnIndex {
    map: HashMap<TypeId, ColumnId>,
}

/// The entries of a [`ColumnIndex`].
pub uninterp spec fn column_index_entries(index: ColumnIndex) -> Map<TypeId, ColumnId>;

impl ColumnIndex {
    /// `HashMap::new()`: no entries.
    #[verifier::external_body]
    pub fn new() -> (created: Self)
        ensures
            column_index_entries(created) =~= Map::empty(),
    {
        ColumnIndex { map: HashMap::new() }
    }

    /// `HashMap::get`, copied out: the column of `type_id`, if it has one.
    /// `TypeId`'s `Eq` and `Hash` agree with its identity.
    #[verifier::external_body]
    pub fn get(&self, type_id: &TypeId) -> (col: Option<ColumnId>)
        ensures
            col == (if column_index_entries(*self).dom().contains(*type_id) {
                Some(column_index_entries(*self)[*type_id])
            } else {
                None
            }),
    {
        self.map.get(type_id).copied()
    }

    /// `HashMap::insert`: maps `type_id` to `col`, returning the column it
    /// had before, if any.
    #[verifier::external_body]
    pub fn insert(&mut self, type_id: TypeId, col: ColumnId) -> (previous: Option<ColumnId>)
        ensures
            column_index_entries(*final(self)) == column_index_entries(*old(self)).insert(
                type_id,
                col,
            ),
            previous == (if column_index_entries(*old(self)).dom().contains(type_id) {
                Some(column_index_entries(*old(self))[type_id])
            } else {
                None
            }),
    {
        self.map.insert(type_id, col)
    }
}

} // verus!
