//! A heterogeneous, append-only store of values of any `'static` type.
use crate::any_sparse_map::{
    cleared, consistent, counted, drain_column, holds_type, is_type_id, iter_column, key_pair,
    lemma_clear_consistent, lemma_insert_consistent, lemma_remove_consistent,
    lemma_restore_consistent, lemma_same_column_consistent, lemma_take_consistent, lemma_type_key,
    live, placeholder_key, reads, reads_exactly, reads_kept, removed_at, reserved, restored_at,
    same_column, sparse_type, taken_at, type_id_is, type_id_of, type_key, items_of, values_of,
    DynSparseMap,
};
use vstd::std_specs::iter::IteratorSpec;
use crate::column_index::{column_index_entries, ColumnIndex};
use crate::ColumnId;
use core::any::TypeId;
use sparse_map::Key;
use vstd::prelude::*;

verus! {

/// Handle returned by [`TypePool::insert`].
///
/// Encodes both the column and the position within it. Pass it back to
/// [`TypePool::get`], [`TypePool::get_mut`], or [`TypePool::remove`] to
/// reach the value with no hash lookup.
#[derive(Debug, Clone, Copy, PartialEq, Eq, Hash)]
pub struct PoolKey {
    col: ColumnId,
    sparse_key: Key,
}

/// A pool key as (column index, (slot index, generation)).
impl View for PoolKey {
    type V = (usize, (usize, u32));

    closed spec fn view(&self) -> (usize, (usize, u32)) {
        (self.col@, key_pair(self.sparse()))
    }
}

impl PoolKey {
    /// A sentinel key that will never refer to a live value.
    #[allow(non_snake_case)]
    pub fn PLACEHOLDER() -> (key: Self)
        ensures
            key@ == (usize::MAX, (usize::MAX, u32::MAX)),
    {
        PoolKey { col: ColumnId::PLACEHOLDER(), sparse_key: placeholder_key() }
    }

    /// The key within its column.
    pub closed spec fn sparse(self) -> Key {
        self.sparse_key
    }

    /// The column this key points into.
    pub closed spec fn column_id(self) -> ColumnId {
        self.col
    }

    /// Returns the [`ColumnId`] encoded in this key.
    pub fn col_id(self) -> (col: ColumnId)
        ensures
            col == self.column_id(),
            col@ == self@.0,
    {
        self.col
    }
}

/// Heterogeneous append-only store.
///
/// Each call to [`TypePool::insert`] allocates a new slot and returns a
/// [`PoolKey`] encoding the column and position. Subsequent lookups use the
/// key directly with no hash-map overhead.
pub struct TypePool {
    column_ids: ColumnIndex,
    columns: Vec<DynSparseMap>,
}

impl TypePool {
    /// Which column each value type has.
    pub closed spec fn registry(&self) -> Map<TypeId, ColumnId> {
        column_index_entries(self.column_ids)
    }

    /// The columns, by index.
    pub closed spec fn columns(&self) -> Seq<DynSparseMap> {
        self.columns@
    }

    /// Every registered column exists, and no two types share a column.
    #[verifier::type_invariant]
    pub closed spec fn well_formed(&self) -> bool {
        &&& forall|t: TypeId| #[trigger]
            column_index_entries(self.column_ids).dom().contains(t) ==> column_index_entries(
                self.column_ids,
            )[t]@ < self.columns@.len()
        &&& forall|t1: TypeId, t2: TypeId|
            #[trigger] column_index_entries(self.column_ids).dom().contains(t1)
                && #[trigger] column_index_entries(self.column_ids).dom().contains(t2) && t1 != t2
                ==> column_index_entries(self.column_ids)[t1]@ != column_index_entries(
                self.column_ids,
            )[t2]@
    }

    /// `key` refers to a live value of this pool.
    pub open spec fn holds(&self, key: PoolKey) -> bool {
        key@.0 < self.columns().len() && live(self.columns()[key@.0 as int]).contains(key@.1)
    }

    /// The column `key` points into exists and holds values of type `T`.
    pub open spec fn typed_at<T: 'static>(&self, key: PoolKey) -> bool {
        key@.0 < self.columns().len() && holds_type::<T>(self.columns()[key@.0 as int])
    }

    /// `r` is an answer that reading a `T` at `key` may give: what the
    /// column's `get::<T>` may give, and `None` where there is no such
    /// column.
    pub open spec fn reads<T: 'static>(&self, key: PoolKey, r: Option<&T>) -> bool {
        if key@.0 < self.columns().len() {
            reads::<T>(self.columns()[key@.0 as int], key.sparse(), r)
        } else {
            r is None
        }
    }

    /// Reading a `T` at `key` gives `v`, and no other answer.
    pub open spec fn value_at<T: 'static>(&self, key: PoolKey, v: Option<&T>) -> bool {
        &&& self.reads::<T>(key, v)
        &&& forall|r: Option<&T>| #[trigger] self.reads::<T>(key, r) ==> r == v
    }

    /// At every key other than `key`, reading a `T` in `after` gives only
    /// answers it may give in `before`.
    pub open spec fn reads_kept<T: 'static>(before: TypePool, after: TypePool, key: PoolKey) -> bool {
        forall|k: PoolKey, r: Option<&T>|
            k@ != key@ ==> (#[trigger] after.reads::<T>(k, r) ==> before.reads::<T>(k, r))
    }

    /// Every column's bookkeeping is sound (see [`consistent`]).
    pub open spec fn columns_consistent(&self) -> bool {
        forall|i: int| 0 <= i < self.columns().len() ==> consistent(#[trigger] self.columns()[i])
    }

    /// Every registered type's column was made for that type.
    pub open spec fn columns_typed(&self) -> bool {
        forall|t: TypeId| #[trigger]
            self.registry().dom().contains(t) ==> sparse_type(
                self.columns()[self.registry()[t]@ as int],
            ) == t
    }

    /// `after` is `before` with a column ensured for `t`, which is `col`: the
    /// column `t` had, or else a new, empty column made for `t` at the end.
    pub open spec fn column_ensured(
        before: TypePool,
        after: TypePool,
        t: TypeId,
        col: ColumnId,
    ) -> bool {
        if before.registry().dom().contains(t) {
            &&& col == before.registry()[t]
            &&& after.registry() == before.registry()
            &&& after.columns() == before.columns()
        } else {
            &&& col@ == before.columns().len()
            &&& after.registry() == before.registry().insert(t, col)
            &&& after.columns().len() == before.columns().len() + 1
            &&& forall|i: int|
                0 <= i < before.columns().len() ==> #[trigger] after.columns()[i]
                    == before.columns()[i]
            &&& live(after.columns()[col@ as int]) == Set::<(usize, u32)>::empty()
            &&& reserved(after.columns()[col@ as int]) == Set::<(usize, u32)>::empty()
            &&& consistent(after.columns()[col@ as int])
            &&& sparse_type(after.columns()[col@ as int]) == t
        }
    }

    /// `after` is `before` with column `i` replaced by `column`.
    pub open spec fn column_replaced(
        before: TypePool,
        after: TypePool,
        i: int,
        column: DynSparseMap,
    ) -> bool {
        &&& 0 <= i < before.columns().len()
        &&& after.registry() == before.registry()
        &&& after.columns() == before.columns().update(i, column)
    }

    /// `after` is `before` with the live value at `key` added; on a
    /// consistent column nothing else changes.
    pub open spec fn value_added(before: TypePool, after: TypePool, key: PoolKey) -> bool {
        let i = key@.0 as int;
        let c0 = before.columns()[i];
        let c1 = after.columns()[i];
        &&& Self::column_replaced(before, after, i, c1)
        &&& !live(c0).contains(key@.1)
        &&& !reserved(c0).contains(key@.1)
        &&& live(c1).contains(key@.1)
        &&& sparse_type(c1) == sparse_type(c0)
        &&& consistent(c0) ==> {
            &&& consistent(c1)
            &&& live(c1) == live(c0).insert(key@.1)
            &&& reserved(c1) == reserved(c0)
        }
    }

    /// `after` is `before` with a column ensured for `t`, and a value then
    /// added to it at `key`.
    pub open spec fn value_inserted(before: TypePool, after: TypePool, t: TypeId, key: PoolKey) -> bool {
        exists|mid: TypePool|
            #![trigger Self::column_ensured(before, mid, t, key.column_id())]
            Self::column_ensured(before, mid, t, key.column_id()) && Self::value_added(
                mid,
                after,
                key,
            )
    }

    /// `after` is `before` with a column ensured for `t`, nothing stored in
    /// it (it holds values of another type), and `key` the placeholder key
    /// into that column.
    pub open spec fn insert_refused(before: TypePool, after: TypePool, t: TypeId, key: PoolKey) -> bool {
        &&& key@.1 == (usize::MAX, u32::MAX)
        &&& Self::column_ensured(before, after, t, key.column_id())
    }

    /// `after` is `before` with the live value at `key` removed, its slot
    /// freed for reuse.
    pub open spec fn value_removed(before: TypePool, after: TypePool, key: PoolKey) -> bool {
        let i = key@.0 as int;
        &&& before.holds(key)
        &&& Self::column_replaced(before, after, i, after.columns()[i])
        &&& removed_at(before.columns()[i], after.columns()[i], key.sparse())
    }

    /// `after` is `before` with the live value at `key` checked out: no
    /// longer live, its slot kept for it.
    pub open spec fn value_checked_out(before: TypePool, after: TypePool, key: PoolKey) -> bool {
        let i = key@.0 as int;
        &&& before.holds(key)
        &&& Self::column_replaced(before, after, i, after.columns()[i])
        &&& taken_at(before.columns()[i], after.columns()[i], key.sparse())
    }

    /// A `T` value checked out at `key` can be put back: the column holds
    /// `T` values and keeps the slot of `key` for it.
    pub open spec fn can_restore<T: 'static>(&self, key: PoolKey) -> bool {
        &&& self.typed_at::<T>(key)
        &&& reserved(self.columns()[key@.0 as int]).contains(key@.1)
    }

    /// `after` is `before` with `v` put back at `key`, where reading a `T`
    /// now gives `v`.
    pub open spec fn value_restored<T: 'static>(
        before: TypePool,
        after: TypePool,
        key: PoolKey,
        v: T,
    ) -> bool {
        let i = key@.0 as int;
        &&& Self::column_replaced(before, after, i, after.columns()[i])
        &&& restored_at(before.columns()[i], after.columns()[i], key.sparse())
        &&& after.value_at::<T>(key, Some(&v))
        &&& Self::reads_kept::<T>(before, after, key)
    }

    /// `after` is `before` with the live values of column `i` cleared.
    pub open spec fn column_cleared(before: TypePool, after: TypePool, i: int) -> bool {
        &&& Self::column_replaced(before, after, i, after.columns()[i])
        &&& cleared(before.columns()[i], after.columns()[i])
    }

    /// The index of the column registered for `t`, if any.
    pub open spec fn column_index(&self, t: TypeId) -> Option<int> {
        if self.registry().dom().contains(t) {
            Some(self.registry()[t]@ as int)
        } else {
            None
        }
    }

    /// The index of the column for values of type `T`, if any.
    pub open spec fn column_of<T: 'static>(&self) -> Option<int> {
        self.column_index(type_key::<T>())
    }

    /// The index of the column for values of type `T`, if there is one and
    /// it holds `T` values.
    pub open spec fn typed_column_of<T: 'static>(&self) -> Option<int> {
        match self.column_of::<T>() {
            Some(i) => if holds_type::<T>(self.columns()[i]) {
                Some(i)
            } else {
                None
            },
            None => None,
        }
    }

    /// The number of values the column for `T` counts (live and checked
    /// out); 0 if `T` has no column holding `T` values.
    pub open spec fn count_of<T: 'static>(&self) -> nat {
        match self.typed_column_of::<T>() {
            Some(i) => counted(self.columns()[i]),
            None => 0,
        }
    }

    /// `items` are the `T` values this pool holds, as reading a `T` gives
    /// them (see [`items_of`]): those of the column for `T` if it holds `T`
    /// values, else none.
    pub open spec fn values_held<T: 'static>(&self, items: Seq<&T>) -> bool {
        match self.typed_column_of::<T>() {
            Some(i) => items_of::<T>(self.columns()[i], items),
            None => items.len() == 0,
        }
    }

    /// `items` are the `T` values this pool holds, by value (see
    /// [`TypePool::values_held`]).
    pub open spec fn values_held_owned<T: 'static>(&self, items: Seq<T>) -> bool {
        match self.typed_column_of::<T>() {
            Some(i) => values_of::<T>(self.columns()[i], items),
            None => items.len() == 0,
        }
    }

    /// `after` and `before` hold the same columns and registry.
    pub open spec fn unchanged(before: TypePool, after: TypePool) -> bool {
        after.registry() == before.registry() && after.columns() == before.columns()
    }

    /// Creates an empty [`TypePool`].
    pub fn new() -> (pool: Self)
        ensures
            pool.registry() == Map::<TypeId, ColumnId>::empty(),
            pool.columns() == Seq::<DynSparseMap>::empty(),
            pool.columns_consistent(),
            pool.columns_typed(),
    {
        TypePool { column_ids: ColumnIndex::new(), columns: Vec::new() }
    }

    /// The column index registered for `type_id`, if any.
    fn find_column(&self, type_id: &TypeId) -> (index: Option<usize>)
        ensures
            index == (if self.registry().dom().contains(*type_id) {
                Some(self.registry()[*type_id]@)
            } else {
                None
            }),
            index matches Some(i) ==> i < self.columns().len(),
    {
        proof {
            use_type_invariant(self);
        }
        match self.column_ids.get(type_id) {
            Some(col) => {
                assert(self.registry().dom().contains(*type_id));
                Some(col.index())
            },
            None => None,
        }
    }

    /// The column for `type_id`, made empty (for values of `T`) at the end
    /// if there is none yet; the caller passes `TypeId::of::<T>()`.
    fn ensure_column_for<T: 'static>(&mut self, type_id: TypeId) -> (col: ColumnId)
        requires
            is_type_id::<T>(type_id),
        ensures
            Self::column_ensured(*old(self), *final(self), type_id, col),
    {
        proof {
            use_type_invariant(&*self);
        }
        match self.column_ids.get(&type_id) {
            Some(col) => col,
            None => {
                let mut taken = TypePool::new();
                core::mem::swap(self, &mut taken);
                proof {
                    use_type_invariant(&taken);
                }
                let TypePool { mut column_ids, mut columns } = taken;
                let col = ColumnId::new(columns.len());
                let make = DynSparseMap::new::<T>;
                let column = make();
                assert(type_id_is::<T>(sparse_type(column)));
                columns.push(column);
                column_ids.insert(type_id, col);
                *self = TypePool { column_ids, columns };
                col
            },
        }
    }

    /// The column for values of `T`, created (empty) if it does not exist
    /// yet. A type's column keeps its id for the lifetime of the pool.
    ///
    /// The pool changes as [`TypePool::column_ensured`] says for the
    /// `TypeId` of `T`.
    pub fn ensure_column<T: 'static>(&mut self) -> (col: ColumnId)
        ensures
            is_type_id::<T>(type_key::<T>()),
            Self::column_ensured(*old(self), *final(self), type_key::<T>(), col),
            final(self).column_of::<T>() == Some(col@ as int),
            old(self).registry().submap_of(final(self).registry()),
            old(self).columns_consistent() ==> final(self).columns_consistent(),
            old(self).columns_typed() ==> final(self).columns_typed(),
            old(self).columns_typed() ==> final(self).typed_column_of::<T>() == Some(col@ as int),
    {
        proof {
            use_type_invariant(&*self);
        }
        let type_id = type_id_of::<T>();
        proof {
            lemma_type_key::<T>(type_id);
        }
        let col = self.ensure_column_for::<T>(type_id);
        proof {
            lemma_ensure_keeps_registry(*old(self), *self, type_id, col);
        }
        col
    }

    /// Whether `key` refers to a live value, whatever its type.
    pub fn contains(&self, key: &PoolKey) -> (found: bool)
        ensures
            found == self.holds(*key),
    {
        let idx = key.col.index();
        if idx < self.columns.len() {
            self.columns[idx].dyn_contains(&key.sparse_key)
        } else {
            false
        }
    }

    /// Inserts `value` and returns a [`PoolKey`] identifying it.
    ///
    /// The value goes into the column for `T`, made if need be, under a key
    /// that held nothing; reading a `T` there then gives `value`, and at
    /// every other key reading a `T` gives no new answer. Where the column
    /// registered for `T` held values of another type (never in a pool whose
    /// columns are typed, as every pool this library makes), nothing is
    /// stored and the key returned is that column's placeholder key.
    pub fn insert<T: 'static>(&mut self, value: T) -> (key: PoolKey)
        ensures
            is_type_id::<T>(type_key::<T>()),
            final(self).typed_at::<T>(key) ==> {
                &&& Self::value_inserted(*old(self), *final(self), type_key::<T>(), key)
                &&& final(self).value_at::<T>(key, Some(&value))
                &&& Self::reads_kept::<T>(*old(self), *final(self), key)
                &&& !old(self).holds(key)
                &&& final(self).holds(key)
            },
            !final(self).typed_at::<T>(key) ==> Self::insert_refused(
                *old(self),
                *final(self),
                type_key::<T>(),
                key,
            ),
            old(self).columns_typed() ==> final(self).typed_at::<T>(key),
            old(self).columns_typed() ==> sparse_type(final(self).columns()[key@.0 as int])
                == type_key::<T>(),
            old(self).registry().submap_of(final(self).registry()),
            old(self).columns_consistent() ==> final(self).columns_consistent(),
            old(self).columns_typed() ==> final(self).columns_typed(),
    {
        let key = self.insert_with_key(move |_k: PoolKey| -> (v: T) ensures v == value { value });
        key
    }

    /// Like [`Self::insert`], but calls `create` with the [`PoolKey`] before
    /// the value is placed in storage.
    ///
    /// `create` gets the key that is returned, and reading a `T` there then
    /// gives the value `create` made. Where nothing is stored (see
    /// [`Self::insert`]), `create` is not called.
    pub fn insert_with_key<T: 'static>(&mut self, create: impl FnOnce(PoolKey) -> T) -> (key: PoolKey)
        requires
            forall|k: PoolKey| create.requires((k,)),
        ensures
            is_type_id::<T>(type_key::<T>()),
            final(self).typed_at::<T>(key) ==> {
                &&& Self::value_inserted(*old(self), *final(self), type_key::<T>(), key)
                &&& exists|v: T| create.ensures((key,), v) && final(self).value_at::<T>(key, Some(&v))
                &&& Self::reads_kept::<T>(*old(self), *final(self), key)
                &&& !old(self).holds(key)
                &&& final(self).holds(key)
            },
            !final(self).typed_at::<T>(key) ==> Self::insert_refused(
                *old(self),
                *final(self),
                type_key::<T>(),
                key,
            ),
            old(self).columns_typed() ==> final(self).typed_at::<T>(key),
            old(self).columns_typed() ==> sparse_type(final(self).columns()[key@.0 as int])
                == type_key::<T>(),
            old(self).registry().submap_of(final(self).registry()),
            old(self).columns_consistent() ==> final(self).columns_consistent(),
            old(self).columns_typed() ==> final(self).columns_typed(),
    {
        proof {
            use_type_invariant(&*self);
        }
        let type_id = type_id_of::<T>();
        proof {
            lemma_type_key::<T>(type_id);
        }
        let col = self.ensure_column_for::<T>(type_id);
        let ghost mid = *self;
        proof {
            use_type_invariant(&*self);
            lemma_ensure_keeps_registry(*old(self), mid, type_id, col);
        }
        let idx = col.index();
        let make = move |k: Key| -> (v: T)
            requires
                create.requires(((PoolKey { col, sparse_key: k }),)),
            ensures
                create.ensures(((PoolKey { col, sparse_key: k }),), v),
        {
            let key = PoolKey { col, sparse_key: k };
            create(key)
        };
        match self.columns[idx].insert_with_key(make) {
            Some(sparse_key) => {
                let key = PoolKey { col, sparse_key };
                proof {
                    let c0 = mid.columns()[idx as int];
                    let c1 = self.columns()[idx as int];
                    assert(self.columns() == mid.columns().update(idx as int, c1));
                    if consistent(c0) {
                        lemma_insert_consistent(c0, c1, sparse_key);
                    }
                    assert(Self::column_ensured(*old(self), mid, type_id, key.column_id()));
                    assert(Self::value_added(mid, *self, key));
                    lemma_inserted_key_present(*old(self), *self, type_id, key);
                    let v = choose|v: T|
                        make.ensures((sparse_key,), v) && reads_exactly::<T>(c1, sparse_key, Some(&v));
                    assert(create.ensures((key,), v));
                    assert forall|r: Option<&T>| #[trigger] self.reads::<T>(key, r) implies r == Some(
                        &v,
                    ) by {
                        assert(reads::<T>(c1, sparse_key, r));
                    }
                    lemma_ensure_reads_kept::<T>(*old(self), mid, type_id, col);
                    lemma_replaced_reads_kept::<T>(mid, *self, key);
                    assert(Self::value_inserted(*old(self), *self, type_key::<T>(), key));
                    assert(self.value_at::<T>(key, Some(&v)));
                    assert(Self::reads_kept::<T>(*old(self), *self, key));
                }
                key
            },
            None => {
                let key = PoolKey { col, sparse_key: placeholder_key() };
                proof {
                    assert(self.columns() =~= mid.columns());
                    assert(Self::column_ensured(*old(self), *self, type_id, key.column_id()));
                    if old(self).columns_typed() {
                        assert(sparse_type(mid.columns()[idx as int]) == type_id);
                        assert(holds_type::<T>(mid.columns()[idx as int]));
                    }
                }
                key
            },
        }
    }

    /// Returns a reference to the value at `key`, or `None` if it has been
    /// removed (or its column holds another type).
    pub fn get<T: 'static>(&self, key: &PoolKey) -> (value: Option<&T>)
        ensures
            self.reads::<T>(*key, value),
            (value is Some) == (self.holds(*key) && self.typed_at::<T>(*key)),
    {
        let idx = key.col.index();
        if idx < self.columns.len() {
            let read = DynSparseMap::get::<T>;
            read(&self.columns[idx], &key.sparse_key)
        } else {
            None
        }
    }

    /// Returns a mutable reference to the value at `key`, or `None` if it
    /// has been removed (or its column holds another type). Writing through
    /// it changes no key and no column's type, and reading a `T` at `key`
    /// then gives what was written.
    pub fn get_mut<T: 'static>(&mut self, key: &PoolKey) -> (value: Option<&mut T>)
        ensures
            (value is Some) == (old(self).holds(*key) && old(self).typed_at::<T>(*key)),
            value is Some ==> old(self).value_at::<T>(*key, Some(&*value.unwrap())),
            value is Some ==> final(self).value_at::<T>(*key, Some(&*final(value.unwrap()))),
            Self::reads_kept::<T>(*old(self), *final(self), *key),
            value is None ==> final(self).columns() == old(self).columns(),
            final(self).registry() == old(self).registry(),
            final(self).columns().len() == old(self).columns().len(),
            forall|i: int|
                0 <= i < old(self).columns().len() ==> same_column(
                    #[trigger] final(self).columns()[i],
                    old(self).columns()[i],
                ),
    {
        proof {
            use_type_invariant(&*self);
        }
        let idx = key.col.index();
        if idx < self.columns.len() {
            let value = self.columns[idx].get_mut::<T>(&key.sparse_key);
            value
        } else {
            None
        }
    }

    /// Removes and returns the value at `key`, or `None` if already removed
    /// (or its column holds another type): the value that reading a `T` at
    /// `key` gave.
    pub fn remove<T: 'static>(&mut self, key: &PoolKey) -> (value: Option<T>)
        ensures
            (value is Some) == (old(self).holds(*key) && old(self).typed_at::<T>(*key)),
            value matches Some(v) ==> old(self).value_at::<T>(*key, Some(&v)),
            value is Some ==> Self::value_removed(*old(self), *final(self), *key),
            value is Some ==> Self::reads_kept::<T>(*old(self), *final(self), *key),
            value is None ==> Self::unchanged(*old(self), *final(self)),
            old(self).columns_consistent() ==> final(self).columns_consistent(),
            old(self).columns_typed() ==> final(self).columns_typed(),
    {
        proof {
            use_type_invariant(&*self);
        }
        let idx = key.col.index();
        if idx < self.columns.len() {
            let ghost before = *self;
            let value = self.columns[idx].remove::<T>(&key.sparse_key);
            proof {
                let i = idx as int;
                assert(self.columns() == before.columns().update(i, self.columns()[i]));
                if value is Some {
                    lemma_removal_keeps_pool(before, *self, *key);
                    lemma_replaced_reads_kept::<T>(before, *self, *key);
                    assert forall|r: Option<&T>| #[trigger] before.reads::<T>(*key, r) implies r
                        == Some(&value->0) by {
                        assert(reads::<T>(before.columns()[i], key.sparse(), r));
                    }
                } else {
                    assert(self.columns() =~= before.columns());
                }
            }
            value
        } else {
            None
        }
    }

    /// Removes the value at `key` without knowing its type.
    ///
    /// Returns `true` if an entry was present and removed.
    pub fn dyn_remove(&mut self, key: &PoolKey) -> (removed: bool)
        ensures
            removed == old(self).holds(*key),
            removed ==> Self::value_removed(*old(self), *final(self), *key),
            !removed ==> Self::unchanged(*old(self), *final(self)),
            old(self).columns_consistent() ==> final(self).columns_consistent(),
            old(self).columns_typed() ==> final(self).columns_typed(),
    {
        proof {
            use_type_invariant(&*self);
        }
        let idx = key.col.index();
        if idx < self.columns.len() {
            let ghost before = *self;
            let removed = self.columns[idx].dyn_remove(&key.sparse_key);
            proof {
                assert(self.columns() == before.columns().update(idx as int, self.columns()[idx as int]));
                if removed {
                    lemma_removal_keeps_pool(before, *self, *key);
                } else {
                    assert(self.columns() =~= before.columns());
                }
            }
            removed
        } else {
            false
        }
    }

    /// Returns the `TypeId` of the values held in `key`'s column, or `None`
    /// if the column does not exist.
    pub fn value_type_id(&self, key: &PoolKey) -> (type_id: Option<TypeId>)
        ensures
            type_id == (if key@.0 < self.columns().len() {
                Some(sparse_type(self.columns()[key@.0 as int]))
            } else {
                None
            }),
    {
        let idx = key.col.index();
        if idx < self.columns.len() {
            Some(self.columns[idx].type_id_of())
        } else {
            None
        }
    }

    /// Provides `(&mut T, &mut TypePool)` simultaneously.
    ///
    /// The value at `key` is temporarily taken out of its slot for the
    /// duration of `f`, then restored to the same slot. Returns `None`,
    /// changing nothing, if `key` is absent (or its column holds another
    /// type); else `f`'s result.
    ///
    /// `f` gets the value that reading a `T` at `key` gave and the pool with
    /// that value checked out. The value as `f` leaves it goes back under
    /// `key` wherever the pool `f` leaves can take it back (its column holds
    /// `T` values and keeps the slot of `key`), and reading a `T` there then
    /// gives it. Elsewhere the pool is left as `f` left it, or (where `f`
    /// removed the value's slot and it was not reused yet) takes the value
    /// back all the same.
    pub fn scope<T: 'static, R>(&mut self, key: &PoolKey, f: impl FnOnce(&mut T, &mut Self) -> R) -> (result: Option<R>)
        requires
            forall|value: &mut T, pool: &mut Self| f.requires((value, pool)),
        ensures
            (result is Some) == (old(self).holds(*key) && old(self).typed_at::<T>(*key)),
            result is None ==> Self::unchanged(*old(self), *final(self)),
            result is Some ==> exists|value: &mut T, pool: &mut Self, r: R|
                {
                    &&& result == Some(r)
                    &&& f.ensures((value, pool), r)
                    &&& old(self).value_at::<T>(*key, Some(&*value))
                    &&& Self::value_checked_out(*old(self), *pool, *key)
                    &&& Self::reads_kept::<T>(*old(self), *pool, *key)
                    &&& old(self).columns_consistent() ==> pool.columns_consistent()
                    &&& (final(pool).columns_consistent() && final(pool).can_restore::<T>(*key))
                        ==> final(self).columns_consistent()
                    &&& (Self::value_restored::<T>(*final(pool), *final(self), *key, *final(value))
                        || (!final(pool).can_restore::<T>(*key) && Self::unchanged(
                        *final(pool),
                        *final(self),
                    )))
                },
    {
        proof {
            use_type_invariant(&*self);
        }
        let idx = key.col.index();
        if idx >= self.columns.len() {
            return None;
        }
        let ghost before = *self;
        let taken = self.columns[idx].take::<T>(&key.sparse_key);
        match taken {
            Some(value) => {
                let ghost mid = *self;
                proof {
                    let i = idx as int;
                    assert(mid.columns() == before.columns().update(i, mid.columns()[i]));
                    lemma_replaced_reads_kept::<T>(before, mid, *key);
                    assert forall|r: Option<&T>| #[trigger] before.reads::<T>(*key, r) implies r
                        == Some(&value) by {
                        assert(reads::<T>(before.columns()[i], key.sparse(), r));
                    }
                    if before.columns_consistent() {
                        lemma_take_consistent(before.columns()[i], mid.columns()[i], key.sparse());
                        assert forall|j: int| 0 <= j < mid.columns().len() implies consistent(
                            #[trigger] mid.columns()[j],
                        ) by {
                            if j != i {
                                assert(mid.columns()[j] == before.columns()[j]);
                            }
                        }
                    }
                }
                let mut value = value;
                let result = f(&mut value, self);
                let ghost handed = *self;
                proof {
                    use_type_invariant(&*self);
                }
                if idx < self.columns.len() {
                    let restored = self.columns[idx].restore::<T>(&key.sparse_key, value);
                    proof {
                        let i = idx as int;
                        assert(self.columns() == handed.columns().update(i, self.columns()[i]));
                        if restored {
                            if handed.columns_consistent() && handed.can_restore::<T>(*key) {
                                lemma_restore_consistent(
                                    handed.columns()[i],
                                    self.columns()[i],
                                    key.sparse(),
                                );
                                assert forall|j: int| 0 <= j < self.columns().len() implies consistent(
                                    #[trigger] self.columns()[j],
                                ) by {
                                    if j != i {
                                        assert(self.columns()[j] == handed.columns()[j]);
                                    }
                                }
                            }
                            lemma_replaced_reads_kept::<T>(handed, *self, *key);
                            assert forall|r: Option<&T>| #[trigger] self.reads::<T>(*key, r) implies r
                                == Some(&value) by {
                                assert(reads::<T>(self.columns()[i], key.sparse(), r));
                            }
                        } else {
                            assert(self.columns() =~= handed.columns());
                        }
                    }
                }
                Some(result)
            },
            None => {
                assert(self.columns() =~= before.columns());
                None
            },
        }
    }

    /// Returns the number of values stored in the column for `T` (values
    /// checked out by [`Self::scope`] included), 0 if `T` has no column.
    pub fn len<T: 'static>(&self) -> (count: usize)
        requires
            self.columns_consistent(),
        ensures
            count == self.count_of::<T>(),
    {
        proof {
            use_type_invariant(self);
        }
        let type_id = type_id_of::<T>();
        proof {
            lemma_type_key::<T>(type_id);
        }
        match self.find_column(&type_id) {
            Some(idx) => {
                let count = self.columns[idx].len::<T>();
                match count {
                    Some(n) => n,
                    None => 0,
                }
            },
            None => 0,
        }
    }

    /// Returns `true` if the column for `T` holds no values.
    pub fn is_empty<T: 'static>(&self) -> (empty: bool)
        requires
            self.columns_consistent(),
        ensures
            empty == (self.count_of::<T>() == 0),
    {
        let count = self.len::<T>();
        count == 0
    }

    /// Iterates shared references to every value in the column for `T`.
    ///
    /// Yields nothing if no column for `T` has been created yet.
    pub fn iter<'a, T: 'static>(&'a self) -> (values: impl Iterator<Item = &'a T> + 'a)
        ensures
            values.obeys_prophetic_iter_laws(),
            self.values_held::<T>(values.remaining()),
    {
        let type_id = type_id_of::<T>();
        proof {
            lemma_type_key::<T>(type_id);
        }
        match self.find_column(&type_id) {
            Some(idx) => iter_column::<T>(Some(&self.columns[idx])),
            None => iter_column::<T>(None),
        }
    }

    /// Removes and yields every value in the column for `T`, leaving that
    /// column empty. No column is added or lost, and no other column
    /// changes.
    pub fn drain<T: 'static>(&mut self) -> (values: impl Iterator<Item = T> + '_)
        ensures
            values.obeys_prophetic_iter_laws(),
            old(self).values_held_owned::<T>(values.remaining()),
            final(self).registry() == old(self).registry(),
            final(self).columns().len() == old(self).columns().len(),
            forall|j: int|
                0 <= j < old(self).columns().len() && old(self).column_of::<T>() != Some(j)
                    ==> #[trigger] final(self).columns()[j] == old(self).columns()[j],
            forall|j: int|
                0 <= j < old(self).columns().len() ==> sparse_type(#[trigger] final(self).columns()[j])
                    == sparse_type(old(self).columns()[j]),
            forall|k: PoolKey| #[trigger] final(self).holds(k) ==> old(self).holds(k),
            old(self).columns_consistent() ==> final(self).columns_consistent(),
            old(self).columns_typed() ==> final(self).columns_typed(),
    {
        proof {
            use_type_invariant(&*self);
        }
        let type_id = type_id_of::<T>();
        proof {
            lemma_type_key::<T>(type_id);
        }
        match self.find_column(&type_id) {
            Some(idx) => {
                let column: &mut DynSparseMap = &mut self.columns[idx];
                drain_column::<T>(Some(column))
            },
            None => drain_column::<T>(None),
        }
    }

    /// Removes every value in the column for `T`, leaving it empty.
    ///
    /// Returns `true` if a column for `T` exists (holding `T` values, as in
    /// every pool whose columns are typed), or `false`, changing nothing, if
    /// one has not been created yet. Values checked out by [`Self::scope`]
    /// stay.
    pub fn clear<T: 'static>(&mut self) -> (was_cleared: bool)
        ensures
            was_cleared == old(self).typed_column_of::<T>() is Some,
            was_cleared ==> Self::column_cleared(
                *old(self),
                *final(self),
                old(self).typed_column_of::<T>()->0,
            ),
            !was_cleared ==> Self::unchanged(*old(self), *final(self)),
            old(self).columns_consistent() ==> final(self).columns_consistent(),
            old(self).columns_typed() ==> final(self).columns_typed(),
    {
        proof {
            use_type_invariant(&*self);
        }
        let type_id = type_id_of::<T>();
        proof {
            lemma_type_key::<T>(type_id);
        }
        match self.find_column(&type_id) {
            Some(idx) => {
                let ghost before = *self;
                let was_cleared = self.columns[idx].clear::<T>();
                proof {
                    let i = idx as int;
                    assert(self.columns() == before.columns().update(i, self.columns()[i]));
                    if was_cleared {
                        assert(Self::column_cleared(before, *self, i));
                        if before.columns_consistent() {
                            lemma_clear_consistent(before.columns()[i], self.columns()[i]);
                        }
                        if before.columns_typed() {
                            lemma_replaced_keeps_typed(before, *self, i);
                        }
                    } else {
                        assert(self.columns() =~= before.columns());
                    }
                }
                was_cleared
            },
            None => false,
        }
    }
}

} // verus!

verus! {

impl Default for TypePool {
    fn default() -> (pool: Self)
        ensures
            pool.registry() == Map::<TypeId, ColumnId>::empty(),
            pool.columns() == Seq::<DynSparseMap>::empty(),
            pool.columns_consistent(),
            pool.columns_typed(),
    {
        Self::new()
    }
}

} // verus!

verus! {

/// Ensuring a column on a well-formed pool gives a well-formed pool whose
/// registry keeps every earlier entry, with consistent columns if they were.
pub proof fn lemma_ensure_keeps_registry(p0: TypePool, p1: TypePool, t: TypeId, col: ColumnId)
    requires
        p0.well_formed(),
        TypePool::column_ensured(p0, p1, t, col),
    ensures
        p1.well_formed(),
        p0.registry().submap_of(p1.registry()),
        p1.registry().dom().contains(t),
        p1.registry()[t] == col,
        p0.columns_consistent() ==> p1.columns_consistent(),
        p0.columns_typed() ==> p1.columns_typed(),
{
    if !p0.registry().dom().contains(t) {
        if p0.columns_typed() {
            assert forall|u: TypeId| #[trigger] p1.registry().dom().contains(u) implies sparse_type(
                p1.columns()[p1.registry()[u]@ as int],
            ) == u by {
                if u != t {
                    assert(p0.registry().dom().contains(u));
                    assert(p1.columns()[p0.registry()[u]@ as int] == p0.columns()[p0.registry()[u]@ as int]);
                }
            }
        }
        assert forall|u: TypeId| #[trigger] p1.registry().dom().contains(u) implies p1.registry()[u]@
            < p1.columns().len() by {
            if u != t {
                assert(p0.registry().dom().contains(u));
            }
        }
        assert forall|u1: TypeId, u2: TypeId|
            #[trigger] p1.registry().dom().contains(u1) && #[trigger] p1.registry().dom().contains(
                u2,
            ) && u1 != u2 implies p1.registry()[u1]@ != p1.registry()[u2]@ by {
            if u1 != t && u2 != t {
                assert(p0.registry().dom().contains(u1) && p0.registry().dom().contains(u2));
            } else if u1 == t {
                assert(p0.registry().dom().contains(u2));
            } else {
                assert(p0.registry().dom().contains(u1));
            }
        }
        if p0.columns_consistent() {
            assert forall|i: int| 0 <= i < p1.columns().len() implies consistent(
                #[trigger] p1.columns()[i],
            ) by {
                if i < p0.columns().len() {
                    assert(p1.columns()[i] == p0.columns()[i]);
                }
            }
        }
    }
}

/// Replacing a column by one made for the same type keeps every registered
/// type's column made for that type.
pub proof fn lemma_replaced_keeps_typed(p0: TypePool, p1: TypePool, i: int)
    requires
        p0.well_formed(),
        TypePool::column_replaced(p0, p1, i, p1.columns()[i]),
        sparse_type(p1.columns()[i]) == sparse_type(p0.columns()[i]),
        p0.columns_typed(),
    ensures
        p1.columns_typed(),
{
    assert forall|u: TypeId| #[trigger] p1.registry().dom().contains(u) implies sparse_type(
        p1.columns()[p1.registry()[u]@ as int],
    ) == u by {
        assert(p0.registry().dom().contains(u));
        let j = p0.registry()[u]@ as int;
        if j != i {
            assert(p1.columns()[j] == p0.columns()[j]);
        }
    }
}

/// Ensuring the column of a type a second time gives the same column and
/// changes nothing.
pub proof fn lemma_ensure_column_idempotent(
    p0: TypePool,
    p1: TypePool,
    p2: TypePool,
    t: TypeId,
    c1: ColumnId,
    c2: ColumnId,
)
    requires
        TypePool::column_ensured(p0, p1, t, c1),
        TypePool::column_ensured(p1, p2, t, c2),
    ensures
        c1 == c2,
        TypePool::unchanged(p1, p2),
{
}

/// Two different types never share a column.
pub proof fn lemma_distinct_types_distinct_columns(pool: TypePool, t1: TypeId, t2: TypeId)
    requires
        pool.well_formed(),
        pool.registry().dom().contains(t1),
        pool.registry().dom().contains(t2),
        t1 != t2,
    ensures
        pool.registry()[t1] != pool.registry()[t2],
{
}

/// An inserted key refers to a live value it did not refer to before. On a
/// pool with consistent columns, every key held before is still held and
/// the columns stay consistent.
pub proof fn lemma_inserted_key_present(p0: TypePool, p1: TypePool, t: TypeId, key: PoolKey)
    requires
        p0.well_formed(),
        TypePool::value_inserted(p0, p1, t, key),
    ensures
        p1.well_formed(),
        !p0.holds(key),
        p1.holds(key),
        p1.registry().dom().contains(t),
        p1.registry()[t] == key.column_id(),
        p0.columns_typed() ==> p1.columns_typed(),
        p0.columns_typed() ==> sparse_type(p1.columns()[key@.0 as int]) == t,
        p0.columns_consistent() ==> forall|k: PoolKey| #[trigger] p0.holds(k) ==> p1.holds(k),
        p0.columns_consistent() ==> p1.columns_consistent(),
{
    let mid = choose|mid: TypePool|
        #![trigger TypePool::column_ensured(p0, mid, t, key.column_id())]
        TypePool::column_ensured(p0, mid, t, key.column_id()) && TypePool::value_added(
            mid,
            p1,
            key,
        );
    lemma_ensure_keeps_registry(p0, mid, t, key.column_id());
    let i = key@.0 as int;
    if p0.columns_typed() {
        lemma_replaced_keeps_typed(mid, p1, i);
    }
    if i < p0.columns().len() {
        assert(mid.columns()[i] == p0.columns()[i]);
    }
    if p0.columns_consistent() {
        assert(consistent(mid.columns()[i]));
        assert forall|k: PoolKey| #[trigger] p0.holds(k) implies p1.holds(k) by {
            let j = k@.0 as int;
            assert(mid.columns()[j] == p0.columns()[j]);
            if j != i {
                assert(p1.columns()[j] == mid.columns()[j]);
            }
        }
        assert forall|j: int| 0 <= j < p1.columns().len() implies consistent(
            #[trigger] p1.columns()[j],
        ) by {
            if j != i {
                assert(p1.columns()[j] == mid.columns()[j]);
            }
        }
    }
}

/// A key whose value was removed no longer refers to a live value, and
/// every other key keeps its standing.
pub proof fn lemma_removed_key_absent(p0: TypePool, p1: TypePool, key: PoolKey)
    requires
        TypePool::value_removed(p0, p1, key),
    ensures
        !p1.holds(key),
        forall|k: PoolKey| k@ != key@ ==> (#[trigger] p1.holds(k) <==> p0.holds(k)),
{
    assert forall|k: PoolKey| k@ != key@ implies (#[trigger] p1.holds(k) <==> p0.holds(k)) by {
        let j = k@.0 as int;
        if 0 <= j < p0.columns().len() && j != key@.0 as int {
            assert(p1.columns()[j] == p0.columns()[j]);
        }
    }
}

/// Removing a value keeps a pool's columns sound and tied to their types.
pub proof fn lemma_removal_keeps_pool(p0: TypePool, p1: TypePool, key: PoolKey)
    requires
        p0.well_formed(),
        TypePool::value_removed(p0, p1, key),
    ensures
        p0.columns_consistent() ==> p1.columns_consistent(),
        p0.columns_typed() ==> p1.columns_typed(),
{
    let i = key@.0 as int;
    if p0.columns_consistent() {
        lemma_remove_consistent(p0.columns()[i], p1.columns()[i], key.sparse());
        assert forall|j: int| 0 <= j < p1.columns().len() implies consistent(
            #[trigger] p1.columns()[j],
        ) by {
            if j != i {
                assert(p1.columns()[j] == p0.columns()[j]);
            }
        }
    }
    if p0.columns_typed() {
        lemma_replaced_keeps_typed(p0, p1, i);
    }
}

/// Replacing the column of `key` by one where `get::<T>` reads no new
/// answer at any slot key but that of `key` adds no answer to reading a `T`
/// at any other key of the pool.
pub proof fn lemma_replaced_reads_kept<T: 'static>(before: TypePool, after: TypePool, key: PoolKey)
    requires
        TypePool::column_replaced(before, after, key@.0 as int, after.columns()[key@.0 as int]),
        reads_kept::<T>(before.columns()[key@.0 as int], after.columns()[key@.0 as int], key.sparse()),
    ensures
        TypePool::reads_kept::<T>(before, after, key),
{
    assert forall|k: PoolKey, r: Option<&T>|
        k@ != key@ && #[trigger] after.reads::<T>(k, r) implies before.reads::<T>(k, r) by {
        if k@.0 == key@.0 {
            assert(key_pair(k.sparse()) != key_pair(key.sparse()));
        } else if k@.0 < before.columns().len() {
            assert(after.columns()[k@.0 as int] == before.columns()[k@.0 as int]);
        }
    }
}

/// Ensuring a column adds no answer to reading a `T` at any key: a new
/// column holds nothing.
pub proof fn lemma_ensure_reads_kept<T: 'static>(p0: TypePool, p1: TypePool, t: TypeId, col: ColumnId)
    requires
        TypePool::column_ensured(p0, p1, t, col),
    ensures
        forall|k: PoolKey, r: Option<&T>| #[trigger] p1.reads::<T>(k, r) ==> p0.reads::<T>(k, r),
{
    assert forall|k: PoolKey, r: Option<&T>| #[trigger] p1.reads::<T>(k, r) implies p0.reads::<T>(
        k,
        r,
    ) by {
        if k@.0 < p0.columns().len() {
            assert(p1.columns()[k@.0 as int] == p0.columns()[k@.0 as int]);
        } else if k@.0 < p1.columns().len() {
            assert(!live(p1.columns()[k@.0 as int]).contains(k@.1));
            assert(reads::<T>(p1.columns()[k@.0 as int], k.sparse(), r));
        }
    }
}

/// After a column is cleared, no key into it refers to a live value.
pub proof fn lemma_cleared_column_holds_nothing(p0: TypePool, p1: TypePool, i: int, key: PoolKey)
    requires
        TypePool::column_cleared(p0, p1, i),
        key@.0 == i,
    ensures
        !p1.holds(key),
{
}

/// A pool whose columns hold the same keys, free slots and types as
/// another's, under the same registry (as after `get_mut`), is as sound and
/// as typed as that one.
pub proof fn lemma_same_columns_keep_pool(p0: TypePool, p1: TypePool)
    requires
        p0.well_formed(),
        p1.registry() == p0.registry(),
        p1.columns().len() == p0.columns().len(),
        forall|i: int|
            0 <= i < p0.columns().len() ==> same_column(
                #[trigger] p1.columns()[i],
                p0.columns()[i],
            ),
    ensures
        p0.columns_consistent() ==> p1.columns_consistent(),
        p0.columns_typed() ==> p1.columns_typed(),
{
    if p0.columns_consistent() {
        assert forall|i: int| 0 <= i < p1.columns().len() implies consistent(
            #[trigger] p1.columns()[i],
        ) by {
            lemma_same_column_consistent(p1.columns()[i], p0.columns()[i]);
        }
    }
}

/// A read gives back what was written: where the pool holds `v` at `key`
/// (after `insert`, `get_mut` or `scope`), reading a `T` there (`get`)
/// answers `Some(v)`.
pub proof fn lemma_read_after_write<T: 'static>(pool: TypePool, key: PoolKey, v: &T, r: Option<&T>)
    requires
        pool.value_at::<T>(key, Some(v)),
        pool.reads::<T>(key, r),
    ensures
        r == Some(v),
{
}

/// A key holds one value at a time: the value `remove` takes out is the one
/// `insert` put in, where nothing was written between.
pub proof fn lemma_one_value_at_key<T: 'static>(pool: TypePool, key: PoolKey, a: Option<&T>, b: Option<&T>)
    requires
        pool.value_at::<T>(key, a),
        pool.value_at::<T>(key, b),
    ensures
        a == b,
{
}

/// What `iter::<T>` yields covers the pool: for every key held in the
/// column for `T`, reading a `T` there gives one of the items.
pub proof fn lemma_iter_yields_each_held_value<T: 'static>(
    pool: TypePool,
    items: Seq<&T>,
    key: PoolKey,
)
    requires
        pool.values_held::<T>(items),
        pool.typed_column_of::<T>() == Some(key@.0 as int),
        pool.holds(key),
    ensures
        exists|j: int| 0 <= j < items.len() && pool.reads::<T>(key, Some(items[j])),
{
    let i = key@.0 as int;
    assert(live(pool.columns()[i]).contains(key_pair(key.sparse())));
    let j = choose|j: int|
        0 <= j < items.len() && reads::<T>(pool.columns()[i], key.sparse(), Some(items[j]));
    assert(pool.reads::<T>(key, Some(items[j])));
}

/// What `iter::<T>` yields is held by the pool: each item is what reading a
/// `T` gives at some key held in the column for `T`.
pub proof fn lemma_iter_yields_only_held_values<T: 'static>(pool: TypePool, items: Seq<&T>, j: int)
    requires
        pool.well_formed(),
        pool.values_held::<T>(items),
        0 <= j < items.len(),
    ensures
        exists|key: PoolKey|
            pool.typed_column_of::<T>() == Some(key@.0 as int) && pool.holds(key) && pool.reads::<T>(
                key,
                Some(items[j]),
            ),
{
    let i = pool.typed_column_of::<T>()->0;
    let k = choose|k: Key|
        live(pool.columns()[i]).contains(key_pair(k)) && reads::<T>(
            pool.columns()[i],
            k,
            Some(items[j]),
        );
    let key = PoolKey { col: pool.registry()[type_key::<T>()], sparse_key: k };
    assert(key@.0 as int == i);
    assert(pool.holds(key));
    assert(pool.reads::<T>(key, Some(items[j])));
}

/// `len::<T>` counts what `iter::<T>` yields, and the values of `T` that
/// `scope` has checked out besides.
pub proof fn lemma_iter_count_is_len<T: 'static>(pool: TypePool, items: Seq<&T>)
    requires
        pool.values_held::<T>(items),
    ensures
        pool.count_of::<T>() == items.len() + match pool.typed_column_of::<T>() {
            Some(i) => reserved(pool.columns()[i]).len(),
            None => 0,
        },
{
}

/// What `drain::<T>` yields covers the pool it drains: for every key held in
/// the column for `T` before, reading a `T` there gave one of the values.
pub proof fn lemma_drain_yields_each_held_value<T: 'static>(pool: TypePool, items: Seq<T>, key: PoolKey)
    requires
        pool.values_held_owned::<T>(items),
        pool.typed_column_of::<T>() == Some(key@.0 as int),
        pool.holds(key),
    ensures
        exists|j: int| 0 <= j < items.len() && pool.reads::<T>(key, Some(&items[j])),
{
    let i = key@.0 as int;
    assert(live(pool.columns()[i]).contains(key_pair(key.sparse())));
    let j = choose|j: int|
        0 <= j < items.len() && reads::<T>(pool.columns()[i], key.sparse(), Some(&items[j]));
    assert(pool.reads::<T>(key, Some(&items[j])));
}

/// What `drain::<T>` yields was held by the pool it drains: each value is
/// what reading a `T` gave at some key held in the column for `T`, and there
/// are as many values as such keys.
pub proof fn lemma_drain_yields_only_held_values<T: 'static>(pool: TypePool, items: Seq<T>, j: int)
    requires
        pool.well_formed(),
        pool.values_held_owned::<T>(items),
        0 <= j < items.len(),
    ensures
        exists|key: PoolKey|
            pool.typed_column_of::<T>() == Some(key@.0 as int) && pool.holds(key) && pool.reads::<T>(
                key,
                Some(&items[j]),
            ),
        items.len() == live(pool.columns()[pool.typed_column_of::<T>()->0]).len(),
{
    let i = pool.typed_column_of::<T>()->0;
    let k = choose|k: Key|
        live(pool.columns()[i]).contains(key_pair(k)) && reads::<T>(
            pool.columns()[i],
            k,
            Some(&items[j]),
        );
    let key = PoolKey { col: pool.registry()[type_key::<T>()], sparse_key: k };
    assert(key@.0 as int == i);
    assert(pool.holds(key));
    assert(pool.reads::<T>(key, Some(&items[j])));
}

/// Inserting a `T` into a sound, typed pool adds one to what `len::<T>`
/// counts.
pub proof fn lemma_insert_counts_one_more<T: 'static>(p0: TypePool, p1: TypePool, key: PoolKey)
    requires
        p0.well_formed(),
        p0.columns_consistent(),
        p0.columns_typed(),
        is_type_id::<T>(type_key::<T>()),
        TypePool::value_inserted(p0, p1, type_key::<T>(), key),
    ensures
        p1.count_of::<T>() == p0.count_of::<T>() + 1,
{
    let t = type_key::<T>();
    lemma_type_key::<T>(t);
    let mid = choose|mid: TypePool|
        #![trigger TypePool::column_ensured(p0, mid, t, key.column_id())]
        TypePool::column_ensured(p0, mid, t, key.column_id()) && TypePool::value_added(
            mid,
            p1,
            key,
        );
    lemma_ensure_keeps_registry(p0, mid, t, key.column_id());
    let i = key@.0 as int;
    let c0 = mid.columns()[i];
    let c1 = p1.columns()[i];
    assert(consistent(c0));
    assert(live(c1) == live(c0).insert(key@.1));
    assert(holds_type::<T>(c1));
    assert(p1.typed_column_of::<T>() == Some(i));
    if p0.registry().dom().contains(t) {
        assert(c0 == p0.columns()[i]);
        assert(holds_type::<T>(c0));
        assert(p0.typed_column_of::<T>() == Some(i));
    } else {
        assert(p0.typed_column_of::<T>() is None);
        assert(live(c0).len() == 0);
    }
}

/// Removing a `T` from a sound pool takes one off what `len::<T>` counts.
pub proof fn lemma_remove_counts_one_less<T: 'static>(p0: TypePool, p1: TypePool, key: PoolKey)
    requires
        p0.well_formed(),
        p0.columns_consistent(),
        p0.typed_column_of::<T>() == Some(key@.0 as int),
        TypePool::value_removed(p0, p1, key),
    ensures
        p1.count_of::<T>() + 1 == p0.count_of::<T>(),
{
    let i = key@.0 as int;
    assert(consistent(p0.columns()[i]));
    assert(p1.typed_column_of::<T>() == Some(i));
}

/// A key into column `usize::MAX`, such as [`PoolKey::PLACEHOLDER`], never
/// refers to a live value: no pool has that many columns.
pub proof fn lemma_placeholder_absent(pool: TypePool, key: PoolKey)
    requires
        key@.0 == usize::MAX,
    ensures
        !pool.holds(key),
{
    assert(pool.columns@.len() == pool.columns.len());
}

} // verus!
