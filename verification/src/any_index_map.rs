//! An `IndexMap` with its value type erased.
use crate::any_sparse_map::{lemma_type_key, type_id_eq, type_id_of, type_key};
use core::any::{Any, TypeId};
use core::hash::{BuildHasher, Hash};
use indexmap::IndexMap;
use vstd::prelude::*;

verus! {

/// `indexmap::IndexMap`, carried through as it is.
#[verifier::external_type_specification]
#[verifier::external_body]
#[verifier::reject_recursive_types(K)]
#[verifier::reject_recursive_types(V)]
#[verifier::reject_recursive_types(S)]
pub struct ExIndexMap<K, V, S>(IndexMap<K, V, S>);

/// `IndexMap::swap_remove`, reporting whether an entry was removed. No
/// clause is given.
#[verifier::external_body]
fn swap_remove_entry_of<K: Eq + Hash, V, S: BuildHasher>(map: &mut IndexMap<K, V, S>, key: &K) -> bool {
    map.swap_remove(key).is_some()
}

/// `IndexMap::contains_key`. No clause is given.
#[verifier::external_body]
fn has_key<K: Eq + Hash, V, S: BuildHasher>(map: &IndexMap<K, V, S>, key: &K) -> bool {
    map.contains_key(key)
}

/// A shared reference to a value, seen as `dyn Any`.
#[verifier::external_body]
pub struct AnyRef<'a> {
    value: &'a dyn Any,
}

/// A mutable reference to a value, seen as `dyn Any`.
#[verifier::external_body]
pub struct AnyMut<'a> {
    value: &'a mut dyn Any,
}

/// Unsizes `&X` to `&dyn Any`.
#[verifier::external_body]
fn any_ref<X: 'static>(value: &X) -> AnyRef<'_> {
    AnyRef { value }
}

/// Unsizes `&mut X` to `&mut dyn Any`.
#[verifier::external_body]
fn any_mut<X: 'static>(value: &mut X) -> AnyMut<'_> {
    AnyMut { value }
}

/// `<dyn Any>::downcast_ref::<X>`: the value, if it is an `X`. No clause is
/// given.
#[verifier::external_body]
fn downcast_any_ref<'a, X: 'static>(any: AnyRef<'a>) -> Option<&'a X> {
    any.value.downcast_ref::<X>()
}

/// `<dyn Any>::downcast_mut::<X>`: the value, if it is an `X`. No clause is
/// given.
#[verifier::external_body]
fn downcast_any_mut<'a, X: 'static>(any: AnyMut<'a>) -> Option<&'a mut X> {
    any.value.downcast_mut::<X>()
}

/// An `IndexMap` keyed by `K` with hasher `S`, whatever its value type.
pub trait AnyIndexMap<K, S> {
    /// The `TypeId` of the stored value type.
    spec fn value_type(&self) -> TypeId;

    /// Returns the `TypeId` of the stored value type.
    fn value_type_id(&self) -> (type_id: TypeId)
        ensures
            type_id == self.value_type(),
    ;

    /// Removes the value at `key` by swapping it with the last entry.
    ///
    /// This is `IndexMap::swap_remove`: it is *O(1)* but perturbs the
    /// position of whatever used to be the last entry.
    ///
    /// Returns `true` if an entry was present and removed.
    fn dyn_swap_remove(&mut self, key: &K) -> bool;

    /// Returns `true` if an entry is present for `key`.
    fn dyn_contains(&self, key: &K) -> bool;

    /// The map, seen as `dyn Any`.
    fn as_any(&self) -> AnyRef<'_>;

    /// The map, seen as `dyn Any`, mutably.
    fn as_any_mut(&mut self) -> AnyMut<'_>;
}

impl<K: Eq + Hash + 'static, V: 'static, S: BuildHasher + 'static> AnyIndexMap<K, S> for IndexMap<
    K,
    V,
    S,
> {
    open spec fn value_type(&self) -> TypeId {
        type_key::<V>()
    }

    fn value_type_id(&self) -> (type_id: TypeId) {
        let type_id = type_id_of::<V>();
        proof {
            lemma_type_key::<V>(type_id);
        }
        type_id
    }

    fn dyn_swap_remove(&mut self, key: &K) -> bool {
        swap_remove_entry_of(self, key)
    }

    fn dyn_contains(&self, key: &K) -> bool {
        has_key(self, key)
    }

    fn as_any(&self) -> AnyRef<'_> {
        any_ref(self)
    }

    fn as_any_mut(&mut self) -> AnyMut<'_> {
        any_mut(self)
    }
}

impl<K: 'static, S: 'static> dyn AnyIndexMap<K, S> {
    /// Whether the stored value type is `V`: the map's value `TypeId`
    /// compared with `TypeId::of::<V>()`.
    pub fn value_is<V: 'static>(&self) -> (is_v: bool)
        ensures
            is_v == (self.value_type() == type_key::<V>()),
    {
        let stored = self.value_type_id();
        let wanted = type_id_of::<V>();
        proof {
            lemma_type_key::<V>(wanted);
        }
        type_id_eq(&stored, &wanted)
    }

    /// The map as an `IndexMap` with values of type `V`, if that is what it
    /// holds; `None` where the value type is another.
    pub fn downcast_ref<V: 'static>(&self) -> (typed: Option<&IndexMap<K, V, S>>)
        ensures
            typed is Some ==> self.value_type() == type_key::<V>(),
    {
        if self.value_is::<V>() {
            downcast_any_ref::<IndexMap<K, V, S>>(self.as_any())
        } else {
            None
        }
    }

    /// The map as an `IndexMap` with values of type `V`, mutably, if that is
    /// what it holds; `None`, with the map untouched, where the value type is
    /// another.
    pub fn downcast_mut<V: 'static>(&mut self) -> (typed: Option<&mut IndexMap<K, V, S>>)
        ensures
            typed is Some ==> old(self).value_type() == type_key::<V>(),
            old(self).value_type() != type_key::<V>() ==> typed is None,
            old(self).value_type() != type_key::<V>() ==> final(self).value_type() == old(
                self,
            ).value_type(),
    {
        if self.value_is::<V>() {
            downcast_any_mut::<IndexMap<K, V, S>>(self.as_any_mut())
        } else {
            None
        }
    }
}

} // verus!
