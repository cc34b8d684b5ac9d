//! A sparse map column with its value type erased.
use core::any::{Any, TypeId};
use sparse_map::{Key, SparseMap};
use vstd::multiset::Multiset;
use vstd::prelude::*;
use vstd::std_specs::iter::IteratorSpec;

verus! {

/// The std type of a type's identity. Values of it are only compared and
/// carried through.
#[verifier::external_type_specification]
#[verifier::external_body]
pub struct ExTypeId(TypeId);

/// The key type of `sparse_map`: a slot index and a generation.
#[verifier::external_type_specification]
#[verifier::external_body]
pub struct ExKey(Key);

/// The slot index of a `Key` (what `Key::index` returns).
pub uninterp spec fn key_index(key: Key) -> usize;

/// The generation of a `Key` (what `Key::generation` returns).
pub uninterp spec fn key_generation(key: Key) -> u32;

/// A key as the pair (slot index, generation) it stands for.
pub open spec fn key_pair(key: Key) -> (usize, u32) {
    (key_index(key), key_generation(key))
}

/// `Key::PLACEHOLDER`, the key with slot `usize::MAX` at generation
/// `u32::MAX`.
#[verifier::external_body]
pub fn placeholder_key() -> (key: Key)
    ensures
        key_index(key) == usize::MAX,
        key_generation(key) == u32::MAX,
{
    Key::PLACEHOLDER
}

/// `TypeId::of::<T>()`: the identity of the type `T`, which is the one
/// `TypeId` that a column made by `DynSparseMap::new::<T>()` records.
#[verifier::external_body]
pub fn type_id_of<T: 'static>() -> (id: TypeId)
    ensures
        is_type_id::<T>(id),
{
    TypeId::of::<T>()
}

/// `t` is recorded by some column that `DynSparseMap::new::<T>()` may make:
/// `t` is a `TypeId` of `T`.
pub open spec fn type_id_is<T: 'static>(t: TypeId) -> bool {
    exists|m: DynSparseMap|
        #[trigger] call_ensures(DynSparseMap::new::<T>, (), m) && sparse_type(m) == t
}

/// `t` is the `TypeId` of `T`, and no other id is.
pub open spec fn is_type_id<T: 'static>(t: TypeId) -> bool {
    forall|u: TypeId| #[trigger] type_id_is::<T>(u) <==> u == t
}

/// The `TypeId` of `T`.
pub open spec fn type_key<T: 'static>() -> TypeId {
    choose|t: TypeId| is_type_id::<T>(t)
}

/// The one `TypeId` of `T` is [`type_key`], and a column holds `T` values
/// exactly when it records that id.
pub proof fn lemma_type_key<T: 'static>(id: TypeId)
    requires
        is_type_id::<T>(id),
    ensures
        type_key::<T>() == id,
        is_type_id::<T>(type_key::<T>()),
        forall|m: DynSparseMap| #[trigger] holds_type::<T>(m) <==> sparse_type(m) == id,
{
    assert(type_id_is::<T>(id));
    let k = type_key::<T>();
    assert(is_type_id::<T>(k));
    assert(type_id_is::<T>(k));
}

/// Column `m` holds values of type `T`: it records the `TypeId` of `T`.
pub open spec fn holds_type<T: 'static>(m: DynSparseMap) -> bool {
    type_id_is::<T>(sparse_type(m))
}

/// `==` on `TypeId`, which holds exactly when both ids are the same value.
#[verifier::external_body]
pub fn type_id_eq(a: &TypeId, b: &TypeId) -> (equal: bool)
    ensures
        equal == (*a == *b),
{
    *a == *b
}

/// A `sparse_map::SparseMap<T>` column with `T` erased, together with the
/// `TypeId` it was made with and `SparseMap::<T>::contains` and
/// `SparseMap::<T>::remove` for the column's own `T`, fixed when the column
/// is made.
#[verifier::external_body]
pub struct DynSparseMap {
    map: Box<dyn Any>,
    type_id: TypeId,
    contains: Box<dyn Fn(&dyn Any, &Key) -> bool>,
    remove: Box<dyn Fn(&mut dyn Any, &Key) -> bool>,
}

/// What a column holds, in terms of the `SparseMap` it wraps: the keys
/// (slot, generation) of its live values; the keys whose values are checked
/// out by `take` and not yet restored; and the slot indices on its free list
/// (a slot may be listed more than once).
pub uninterp spec fn sparse_contents(m: DynSparseMap) -> (
    Set<(usize, u32)>,
    Set<(usize, u32)>,
    Multiset<usize>,
);

/// The `TypeId` a column was made with.
pub uninterp spec fn sparse_type(m: DynSparseMap) -> TypeId;

/// The contents of a new column: no keys, no free slots.
pub open spec fn no_contents() -> (Set<(usize, u32)>, Set<(usize, u32)>, Multiset<usize>) {
    (Set::empty(), Set::empty(), Multiset::empty())
}

/// `r` is an answer that `get::<T>(key)` may give on column `m`.
pub open spec fn reads<T: 'static>(m: DynSparseMap, key: Key, r: Option<&T>) -> bool {
    call_ensures(DynSparseMap::get::<T>, (&m, &key), r)
}

/// `get::<T>(key)` on `m` gives `v`, and no other answer.
pub open spec fn reads_exactly<T: 'static>(m: DynSparseMap, key: Key, v: Option<&T>) -> bool {
    &&& reads::<T>(m, key, v)
    &&& forall|r: Option<&T>| #[trigger] reads::<T>(m, key, r) ==> r == v
}

/// At every slot key other than that of `key`, `get::<T>` on `after` gives
/// only answers it may give on `before`.
pub open spec fn reads_kept<T: 'static>(before: DynSparseMap, after: DynSparseMap, key: Key) -> bool {
    forall|k: Key, r: Option<&T>|
        key_pair(k) != key_pair(key) ==> (#[trigger] reads::<T>(after, k, r) ==> reads::<T>(before, k, r))
}

/// `items` are the values of `m` as `get::<T>` reads them: as many as `m`
/// has live keys, the value read at each live key among them, and each of
/// them read at some live key.
pub open spec fn items_of<T: 'static>(m: DynSparseMap, items: Seq<&T>) -> bool {
    &&& items.len() == live(m).len()
    &&& forall|k: Key| #[trigger]
        live(m).contains(key_pair(k)) ==> exists|i: int|
            0 <= i < items.len() && reads::<T>(m, k, Some(#[trigger] items[i]))
    &&& forall|i: int|
        #![trigger items[i]]
        0 <= i < items.len() ==> exists|k: Key|
            #![trigger reads::<T>(m, k, Some(items[i]))]
            live(m).contains(key_pair(k)) && reads::<T>(m, k, Some(items[i]))
}

/// `items` are the values of `m` as `get::<T>` reads them (see
/// [`items_of`]), by value.
pub open spec fn values_of<T: 'static>(m: DynSparseMap, items: Seq<T>) -> bool {
    &&& items.len() == live(m).len()
    &&& forall|k: Key| #[trigger]
        live(m).contains(key_pair(k)) ==> exists|i: int|
            0 <= i < items.len() && reads::<T>(m, k, Some(&#[trigger] items[i]))
    &&& forall|i: int|
        #![trigger items[i]]
        0 <= i < items.len() ==> exists|k: Key|
            #![trigger reads::<T>(m, k, Some(&items[i]))]
            live(m).contains(key_pair(k)) && reads::<T>(m, k, Some(&items[i]))
}

/// Keys of the live values of `m`.
pub open spec fn live(m: DynSparseMap) -> Set<(usize, u32)> {
    sparse_contents(m).0
}

/// Keys whose values are checked out of `m`.
pub open spec fn reserved(m: DynSparseMap) -> Set<(usize, u32)> {
    sparse_contents(m).1
}

/// Slot indices on the free list of `m`.
pub open spec fn free(m: DynSparseMap) -> Multiset<usize> {
    sparse_contents(m).2
}

/// Some live value of `m` sits in slot `i`.
pub open spec fn slot_live(m: DynSparseMap, i: usize) -> bool {
    exists|k: (usize, u32)| #[trigger] live(m).contains(k) && k.0 == i
}

/// Slot key `k` holds a value of `m`, live or checked out.
pub open spec fn occupied(m: DynSparseMap, k: (usize, u32)) -> bool {
    live(m).contains(k) || reserved(m).contains(k)
}

/// The column's bookkeeping is sound: finitely many keys, each slot holds
/// at most one key, and a slot on the free list (listed once) holds neither
/// a live nor a checked-out value.
pub open spec fn consistent(m: DynSparseMap) -> bool {
    &&& live(m).finite()
    &&& reserved(m).finite()
    &&& forall|k: (usize, u32)| #[trigger] live(m).contains(k) ==> !reserved(m).contains(k)
    &&& forall|i: usize| #[trigger] free(m).count(i) <= 1
    &&& forall|k: (usize, u32)| #[trigger] live(m).contains(k) ==> free(m).count(k.0) == 0
    &&& forall|k: (usize, u32)| #[trigger] reserved(m).contains(k) ==> free(m).count(k.0) == 0
    &&& forall|a: (usize, u32), b: (usize, u32)|
        #[trigger] occupied(m, a) && #[trigger] occupied(m, b) && a.0 == b.0 ==> a == b
}

/// The number of values a consistent column counts: live and checked out.
pub open spec fn counted(m: DynSparseMap) -> nat {
    live(m).len() + reserved(m).len()
}

/// `m` and `n` hold the same keys, free slots and type.
pub open spec fn same_column(m: DynSparseMap, n: DynSparseMap) -> bool {
    sparse_contents(m) == sparse_contents(n) && sparse_type(m) == sparse_type(n)
}

/// A column with the same keys and free slots as a consistent one is
/// consistent.
pub proof fn lemma_same_column_consistent(m: DynSparseMap, n: DynSparseMap)
    requires
        same_column(m, n),
        consistent(n),
    ensures
        consistent(m),
{
    assert(live(m) == live(n) && reserved(m) == reserved(n) && free(m) == free(n));
    assert forall|a: (usize, u32)| occupied(m, a) == occupied(n, a) by {}
}

/// What inserting under `key` does to a column: the slot of `key` (popped
/// off the free list if that is not empty, else a new one) now holds just
/// the live value at `key`, whose generation no key of that slot had.
pub open spec fn inserted_at(before: DynSparseMap, after: DynSparseMap, key: Key) -> bool {
    let i = key_index(key);
    &&& !live(before).contains(key_pair(key))
    &&& !reserved(before).contains(key_pair(key))
    &&& live(after) == live(before).filter(|k: (usize, u32)| k.0 != i).insert(key_pair(key))
    &&& reserved(after) == reserved(before).filter(|k: (usize, u32)| k.0 != i)
    &&& free(before).len() > 0 ==> free(before).count(i) > 0 && free(after) == free(before).remove(i)
    &&& free(before).len() == 0 ==> {
        &&& free(after) == free(before)
        &&& !slot_live(before, i)
        &&& forall|k: (usize, u32)| #[trigger] reserved(before).contains(k) ==> k.0 != i
    }
    &&& sparse_type(after) == sparse_type(before)
}

/// Inserting into a consistent column adds just the new key and keeps it
/// consistent.
pub proof fn lemma_insert_consistent(before: DynSparseMap, after: DynSparseMap, key: Key)
    requires
        inserted_at(before, after, key),
        consistent(before),
    ensures
        consistent(after),
        live(after) == live(before).insert(key_pair(key)),
        reserved(after) == reserved(before),
{
    let i = key_index(key);
    assert forall|k: (usize, u32)| #[trigger] live(before).contains(k) implies k.0 != i by {
        if free(before).len() > 0 {
            assert(free(before).count(k.0) == 0);
        } else {
            if k.0 == i {
                assert(slot_live(before, i));
            }
        }
    }
    assert forall|k: (usize, u32)| #[trigger] reserved(before).contains(k) implies k.0 != i by {
        if free(before).len() > 0 {
            assert(free(before).count(k.0) == 0);
        }
    }
    assert(live(before).filter(|k: (usize, u32)| k.0 != i) =~= live(before));
    assert(reserved(before).filter(|k: (usize, u32)| k.0 != i) =~= reserved(before));
    if free(before).len() == 0 {
        vstd::multiset::lemma_multiset_empty_len(free(before));
        assert(free(before) =~= Multiset::empty());
    }
    assert(free(after).count(i) == 0);
    assert forall|j: usize| #[trigger] free(after).count(j) <= free(before).count(j) by {}
    assert forall|a: (usize, u32), b: (usize, u32)|
        #[trigger] occupied(after, a) && #[trigger] occupied(after, b) && a.0 == b.0 implies a
        == b by {
        if a != key_pair(key) && b != key_pair(key) {
            assert(occupied(before, a) && occupied(before, b));
        }
        if a == key_pair(key) && b != key_pair(key) {
            assert(occupied(before, b));
        }
        if b == key_pair(key) && a != key_pair(key) {
            assert(occupied(before, a));
        }
    }
}

/// What removing the live value at `key` does to a column: `key` is no
/// longer live and its slot goes on the free list.
pub open spec fn removed_at(before: DynSparseMap, after: DynSparseMap, key: Key) -> bool {
    &&& live(before).contains(key_pair(key))
    &&& live(after) == live(before).remove(key_pair(key))
    &&& reserved(after) == reserved(before)
    &&& free(after) == free(before).insert(key_index(key))
    &&& sparse_type(after) == sparse_type(before)
}

/// Removing from a consistent column keeps it consistent.
pub proof fn lemma_remove_consistent(before: DynSparseMap, after: DynSparseMap, key: Key)
    requires
        removed_at(before, after, key),
        consistent(before),
    ensures
        consistent(after),
{
    let kp = key_pair(key);
    assert forall|k: (usize, u32)| #[trigger] live(after).contains(k) implies free(after).count(k.0)
        == 0 by {
        assert(occupied(before, k) && occupied(before, kp));
    }
    assert forall|k: (usize, u32)| #[trigger] reserved(after).contains(k) implies free(
        after,
    ).count(k.0) == 0 by {
        assert(occupied(before, k) && occupied(before, kp));
    }
    assert forall|a: (usize, u32), b: (usize, u32)|
        #[trigger] occupied(after, a) && #[trigger] occupied(after, b) && a.0 == b.0 implies a
        == b by {
        assert(occupied(before, a) && occupied(before, b));
    }
}

/// What clearing does to a column: no live value is left, checked-out
/// values stay, and each slot that held a live value goes on the free list.
pub open spec fn cleared(before: DynSparseMap, after: DynSparseMap) -> bool {
    &&& live(after) == Set::<(usize, u32)>::empty()
    &&& reserved(after) == reserved(before)
    &&& forall|i: usize| #[trigger]
        free(after).count(i) == free(before).count(i) + if slot_live(before, i) {
            1nat
        } else {
            0nat
        }
    &&& sparse_type(after) == sparse_type(before)
}

/// Clearing a consistent column keeps it consistent.
pub proof fn lemma_clear_consistent(before: DynSparseMap, after: DynSparseMap)
    requires
        cleared(before, after),
        consistent(before),
    ensures
        consistent(after),
{
    assert forall|i: usize| #[trigger] free(after).count(i) <= 1 by {
        if slot_live(before, i) {
            let k = choose|k: (usize, u32)| #[trigger] live(before).contains(k) && k.0 == i;
            assert(free(before).count(k.0) == 0);
        }
    }
    assert forall|k: (usize, u32)| #[trigger] reserved(after).contains(k) implies free(
        after,
    ).count(k.0) == 0 by {
        if slot_live(before, k.0) {
            let a = choose|a: (usize, u32)| #[trigger] live(before).contains(a) && a.0 == k.0;
            assert(occupied(before, a) && occupied(before, k));
        }
        assert(free(before).count(k.0) == 0);
    }
    assert forall|a: (usize, u32), b: (usize, u32)|
        #[trigger] occupied(after, a) && #[trigger] occupied(after, b) && a.0 == b.0 implies a
        == b by {
        assert(occupied(before, a) && occupied(before, b));
    }
}

/// What taking the value at `key` out does to a column: it is no longer
/// live, and it is checked out unless its slot is on the free list.
pub open spec fn taken_at(before: DynSparseMap, after: DynSparseMap, key: Key) -> bool {
    &&& live(before).contains(key_pair(key))
    &&& live(after) == live(before).remove(key_pair(key))
    &&& reserved(after) == if free(before).count(key_index(key)) == 0 {
        reserved(before).insert(key_pair(key))
    } else {
        reserved(before)
    }
    &&& free(after) == free(before)
    &&& sparse_type(after) == sparse_type(before)
}

/// Checking out a live value of a consistent column keeps it consistent,
/// the key moving from live to checked out.
pub proof fn lemma_take_consistent(before: DynSparseMap, after: DynSparseMap, key: Key)
    requires
        taken_at(before, after, key),
        consistent(before),
    ensures
        consistent(after),
        reserved(after) == reserved(before).insert(key_pair(key)),
{
    let kp = key_pair(key);
    assert(free(before).count(kp.0) == 0);
    assert forall|a: (usize, u32), b: (usize, u32)|
        #[trigger] occupied(after, a) && #[trigger] occupied(after, b) && a.0 == b.0 implies a
        == b by {
        assert(occupied(before, a) && occupied(before, b));
    }
}

/// Putting a checked-out value back into a consistent column keeps it
/// consistent.
pub proof fn lemma_restore_consistent(before: DynSparseMap, after: DynSparseMap, key: Key)
    requires
        restored_at(before, after, key),
        consistent(before),
        reserved(before).contains(key_pair(key)),
    ensures
        consistent(after),
{
    assert forall|a: (usize, u32), b: (usize, u32)|
        #[trigger] occupied(after, a) && #[trigger] occupied(after, b) && a.0 == b.0 implies a
        == b by {
        assert(occupied(before, a) && occupied(before, b));
    }
}

/// What putting a value back at `key` does to a column: it is live again.
pub open spec fn restored_at(before: DynSparseMap, after: DynSparseMap, key: Key) -> bool {
    &&& !live(before).contains(key_pair(key))
    &&& live(after) == live(before).insert(key_pair(key))
    &&& reserved(after) == reserved(before).remove(key_pair(key))
    &&& free(after) == free(before)
    &&& sparse_type(after) == sparse_type(before)
}

impl DynSparseMap {
    /// `SparseMap::<T>::new()`, erased, recorded as made for
    /// `TypeId::of::<T>()`.
    #[verifier::external_body]
    pub fn new<T: 'static>() -> (m: Self)
        ensures
            sparse_contents(m) == no_contents(),
    {
        let contains = move |m: &dyn Any, key: &Key| {
            m.downcast_ref::<SparseMap<T>>().is_some_and(|map| map.contains(key))
        };
        let remove = move |m: &mut dyn Any, key: &Key| {
            m.downcast_mut::<SparseMap<T>>().is_some_and(|map| map.remove(key).is_some())
        };
        let (contains, remove) = (Box::new(contains), Box::new(remove));
        let type_id = TypeId::of::<T>();
        DynSparseMap { map: Box::new(SparseMap::<T>::new()), type_id, contains, remove }
    }

    /// The `TypeId` the column was made with (for a column made by `new`,
    /// that of its value type).
    #[verifier::external_body]
    pub fn type_id_of(&self) -> (type_id: TypeId)
        ensures
            type_id == sparse_type(*self),
    {
        self.type_id
    }

    /// Whether the column holds `T` values: the `TypeId` it was made with,
    /// compared with `TypeId::of::<T>()`.
    pub fn element_is<T: 'static>(&self) -> (is_t: bool)
        ensures
            is_t == holds_type::<T>(*self),
    {
        let stored = self.type_id_of();
        let wanted = type_id_of::<T>();
        type_id_eq(&stored, &wanted)
    }

    /// `SparseMap::contains` of the column's own `T`: whether `key` refers
    /// to a live value.
    #[verifier::external_body]
    pub fn dyn_contains(&self, key: &Key) -> (found: bool)
        ensures
            found == live(*self).contains(key_pair(*key)),
    {
        (self.contains)(&*self.map, key)
    }

    /// `SparseMap::remove` of the column's own `T`, reporting whether a live
    /// value was removed; its slot goes on the free list.
    #[verifier::external_body]
    pub fn dyn_remove(&mut self, key: &Key) -> (removed: bool)
        ensures
            removed == live(*old(self)).contains(key_pair(*key)),
            removed ==> removed_at(*old(self), *final(self), *key),
            !removed ==> *final(self) == *old(self),
    {
        (self.remove)(&mut *self.map, key)
    }

    /// `SparseMap::<T>::get`: the value at `key`, if the column holds `T`
    /// values and `key` is live.
    #[verifier::external_body]
    pub fn get<T: 'static>(&self, key: &Key) -> (value: Option<&T>)
        ensures
            (value is Some) == (holds_type::<T>(*self) && live(*self).contains(key_pair(*key))),
    {
        self.map.downcast_ref::<SparseMap<T>>()?.get(key)
    }

    /// `SparseMap::<T>::get_mut`: the value at `key`, if the column holds
    /// `T` values and `key` is live. Writing through the result changes no
    /// key, and `get` then reads at `key` what was written.
    #[verifier::external_body]
    pub fn get_mut<T: 'static>(&mut self, key: &Key) -> (value: Option<&mut T>)
        ensures
            value is Some <==> holds_type::<T>(*old(self)) && live(*old(self)).contains(
                key_pair(*key),
            ),
            same_column(*final(self), *old(self)),
            value is Some ==> reads_exactly::<T>(*old(self), *key, Some(&*value.unwrap())),
            value is Some ==> reads_exactly::<T>(
                *final(self),
                *key,
                Some(&*final(value.unwrap())),
            ),
            reads_kept::<T>(*old(self), *final(self), *key),
            value is None ==> *final(self) == *old(self),
    {
        self.map.downcast_mut::<SparseMap<T>>()?.get_mut(key)
    }

    /// `SparseMap::<T>::remove`: the value `get` read at `key`, if the
    /// column holds `T` values and `key` is live; else `None`, with nothing
    /// changed.
    #[verifier::external_body]
    pub fn remove<T: 'static>(&mut self, key: &Key) -> (value: Option<T>)
        ensures
            value is Some <==> holds_type::<T>(*old(self)) && live(*old(self)).contains(
                key_pair(*key),
            ),
            value matches Some(v) ==> reads_exactly::<T>(*old(self), *key, Some(&v)),
            value is Some ==> reads_kept::<T>(*old(self), *final(self), *key),
            value is Some ==> removed_at(*old(self), *final(self), *key),
            value is None ==> *final(self) == *old(self),
    {
        self.map.downcast_mut::<SparseMap<T>>()?.remove(key)
    }

    /// `SparseMap::<T>::take`: checks out the value `get` read at `key`, its
    /// slot staying reserved, if the column holds `T` values and `key` is
    /// live; else `None`, with nothing changed.
    #[verifier::external_body]
    pub fn take<T: 'static>(&mut self, key: &Key) -> (value: Option<T>)
        ensures
            value is Some <==> holds_type::<T>(*old(self)) && live(*old(self)).contains(
                key_pair(*key),
            ),
            value matches Some(v) ==> reads_exactly::<T>(*old(self), *key, Some(&v)),
            value is Some ==> reads_kept::<T>(*old(self), *final(self), *key),
            value is Some ==> taken_at(*old(self), *final(self), *key),
            value is None ==> *final(self) == *old(self),
    {
        self.map.downcast_mut::<SparseMap<T>>()?.take(key)
    }

    /// `SparseMap::<T>::restore`: puts a value back into the slot of `key`.
    /// It succeeds on a checked-out key; it may also succeed on a key whose
    /// value was removed while its slot was not reused yet, which this
    /// contract does not single out. `false`, with nothing changed (the
    /// value is dropped), where the column does not hold `T` values. It
    /// succeeds on a checked-out key of a column that holds `T` values, and
    /// `get` then reads `value` at `key`.
    #[verifier::external_body]
    pub fn restore<T: 'static>(&mut self, key: &Key, value: T) -> (restored: bool)
        ensures
            live(*old(self)).contains(key_pair(*key)) ==> !restored,
            holds_type::<T>(*old(self)) && reserved(*old(self)).contains(key_pair(*key))
                ==> restored,
            restored ==> holds_type::<T>(*old(self)),
            restored ==> reads_exactly::<T>(*final(self), *key, Some(&value)),
            restored ==> reads_kept::<T>(*old(self), *final(self), *key),
            restored ==> restored_at(*old(self), *final(self), *key),
            !restored ==> *final(self) == *old(self),
    {
        match self.map.downcast_mut::<SparseMap<T>>() {
            Some(map) => map.restore(key, value),
            None => false,
        }
    }

    /// `SparseMap::<T>::insert_with_key`, `create` getting the key the value
    /// will sit under. The slot is the one popped off the free list, else a
    /// new slot; a reused slot's generation is bumped. `None`, with nothing
    /// changed and `create` not called, where the column does not hold `T`
    /// values.
    #[verifier::external_body]
    pub fn insert_with_key<T: 'static, F: FnOnce(Key) -> T>(&mut self, create: F) -> (key: Option<
        Key,
    >)
        requires
            forall|k: Key| create.requires((k,)),
        ensures
            key is Some <==> holds_type::<T>(*old(self)),
            key matches Some(k) ==> (exists|v: T|
                create.ensures((k,), v) && reads_exactly::<T>(*final(self), k, Some(&v))),
            key matches Some(k) ==> reads_kept::<T>(*old(self), *final(self), k),
            key matches Some(k) ==> inserted_at(*old(self), *final(self), k),
            key is None ==> *final(self) == *old(self),
    {
        let map = self.map.downcast_mut::<SparseMap<T>>()?;
        Some(map.insert_with_key(|_, k| create(k)))
    }

    /// `SparseMap::<T>::len`: live and checked-out values. `None` where the
    /// column does not hold `T` values.
    #[verifier::external_body]
    pub fn len<T: 'static>(&self) -> (count: Option<usize>)
        requires
            consistent(*self),
        ensures
            count is Some <==> holds_type::<T>(*self),
            count matches Some(n) ==> n == counted(*self),
    {
        self.map.downcast_ref::<SparseMap<T>>().map(SparseMap::len)
    }

    /// `SparseMap::<T>::clear`: every live value is dropped and its slot goes
    /// on the free list; checked-out values stay. `false`, with nothing
    /// changed, where the column does not hold `T` values.
    #[verifier::external_body]
    pub fn clear<T: 'static>(&mut self) -> (is_cleared: bool)
        ensures
            is_cleared <==> holds_type::<T>(*old(self)),
            is_cleared ==> cleared(*old(self), *final(self)),
            !is_cleared ==> *final(self) == *old(self),
    {
        match self.map.downcast_mut::<SparseMap<T>>() {
            Some(map) => {
                map.clear();
                true
            },
            None => false,
        }
    }
}

/// `SparseMap::<T>::iter` of the column, if there is one and it holds `T`
/// values; nothing otherwise. It yields the live values, one for each live
/// key, in slot order, each what `get::<T>` reads at its key.
#[verifier::external_body]
pub fn iter_column<'a, T: 'static>(column: Option<&'a DynSparseMap>) -> (values: impl Iterator<
    Item = &'a T,
> + 'a)
    ensures
        values.obeys_prophetic_iter_laws(),
        column is Some && holds_type::<T>(*column.unwrap()) ==> items_of::<T>(
            *column.unwrap(),
            values.remaining(),
        ),
        !(column is Some && holds_type::<T>(*column.unwrap())) ==> values.remaining().len() == 0,
{
    let typed = match column {
        Some(c) => c.map.downcast_ref::<SparseMap<T>>(),
        None => None,
    };
    typed.into_iter().flat_map(SparseMap::iter)
}

/// `SparseMap::<T>::drain` of the column, if there is one and it holds `T`
/// values; nothing otherwise. The values are removed one by one as the
/// iterator is driven or dropped, each slot going on the free list as
/// `remove` does it; it yields the live values, one for each live key, in
/// slot order, each what `get::<T>` read at its key. Which values are gone
/// when the borrow ends is not stated (an iterator that is leaked is never
/// dropped): no key becomes live, checked-out values stay, a consistent
/// column stays consistent, and the `TypeId` it records stays.
#[verifier::external_body]
pub fn drain_column<'a, T: 'static>(column: Option<&'a mut DynSparseMap>) -> (values: impl Iterator<
    Item = T,
> + 'a)
    ensures
        values.obeys_prophetic_iter_laws(),
        column is Some && holds_type::<T>(*column.unwrap()) ==> values_of::<T>(
            *column.unwrap(),
            values.remaining(),
        ),
        !(column is Some && holds_type::<T>(*column.unwrap())) ==> values.remaining().len() == 0,
        column is Some ==> sparse_type(*final(column.unwrap())) == sparse_type(*column.unwrap()),
        column is Some ==> live(*final(column.unwrap())).subset_of(live(*column.unwrap())),
        column is Some ==> reserved(*final(column.unwrap())) == reserved(*column.unwrap()),
        column is Some ==> (consistent(*column.unwrap()) ==> consistent(
            *final(column.unwrap()),
        )),
{
    let typed = match column {
        Some(c) => c.map.downcast_mut::<SparseMap<T>>(),
        None => None,
    };
    typed.into_iter().flat_map(SparseMap::drain)
}

} // verus!
