use typarena::type_pool::{PoolKey, TypePool};

#[derive(Debug, PartialEq, Clone, Copy)]
struct Velocity(f32);

#[derive(Debug, PartialEq, Clone)]
struct Name(String);

#[test]
fn insert_and_get() {
    let mut pool = TypePool::new();
    let key = pool.insert(Velocity(10.5));
    assert_eq!(pool.get::<Velocity>(&key), Some(&Velocity(10.5)));
}

#[test]
fn heterogeneous_storage() {
    let mut pool = TypePool::new();
    let kv = pool.insert(Velocity(20.0));
    let kn = pool.insert(Name(String::from("Entity_1")));
    // Each type occupies a different column.
    assert_ne!(kv.col_id(), kn.col_id());
    assert_eq!(pool.get::<Velocity>(&kv), Some(&Velocity(20.0)));
    assert_eq!(
        pool.get::<Name>(&kn),
        Some(&Name(String::from("Entity_1")))
    );
}

#[test]
fn type_isolation() {
    let mut pool = TypePool::new();
    let key = pool.insert(50u64);
    assert!(pool.get::<u32>(&key).is_none());
    assert!(pool.get::<i64>(&key).is_none());
    assert_eq!(pool.get::<u64>(&key), Some(&50u64));
}

#[test]
fn multiple_values_same_type() {
    let mut pool = TypePool::new();
    let k1 = pool.insert(Velocity(1.0));
    let k2 = pool.insert(Velocity(2.0));
    assert_eq!(pool.get::<Velocity>(&k1), Some(&Velocity(1.0)));
    assert_eq!(pool.get::<Velocity>(&k2), Some(&Velocity(2.0)));
}

#[test]
fn get_mut_modifies_value() {
    let mut pool = TypePool::new();
    let key = pool.insert(Velocity(0.0));
    pool.get_mut::<Velocity>(&key).unwrap().0 = 9.9;
    assert_eq!(pool.get::<Velocity>(&key), Some(&Velocity(9.9)));
}

#[test]
fn remove_returns_value() {
    let mut pool = TypePool::new();
    let key = pool.insert(Velocity(5.0));
    assert_eq!(
        pool.remove::<Velocity>(&key),
        Some(Velocity(5.0))
    );
    assert!(pool.get::<Velocity>(&key).is_none());
    assert!(pool.remove::<Velocity>(&key).is_none());
}

#[test]
fn dyn_remove_present() {
    let mut pool = TypePool::new();
    let key = pool.insert(Velocity(1.0));
    assert!(pool.dyn_remove(&key));
    assert!(pool.get::<Velocity>(&key).is_none());
}

#[test]
fn dyn_remove_absent() {
    let mut pool = TypePool::new();
    let key = pool.insert(Velocity(1.0));
    pool.dyn_remove(&key);
    assert!(!pool.dyn_remove(&key));
}

#[test]
fn placeholder_key_is_absent() {
    let mut pool = TypePool::new();
    assert!(!pool.dyn_remove(&PoolKey::PLACEHOLDER()));
}

#[test]
fn clear_empties_column() {
    let mut pool = TypePool::new();
    let key = pool.insert(Velocity(1.0));
    pool.insert(Velocity(2.0));

    assert!(pool.clear::<Velocity>());
    assert_eq!(pool.len::<Velocity>(), 0);
    assert!(pool.get::<Velocity>(&key).is_none());
}

#[test]
fn clear_absent_column_returns_false() {
    let mut pool = TypePool::new();
    assert!(!pool.clear::<Velocity>());
}

#[test]
fn insert_with_key_receives_correct_key() {
    let mut pool = TypePool::new();
    let mut seen = None;
    let returned = pool.insert_with_key(|k| {
        seen = Some(k);
        Velocity(1.0)
    });
    assert_eq!(seen, Some(returned));
}

#[test]
fn ensure_column_is_idempotent() {
    let mut pool = TypePool::new();
    let c1 = pool.ensure_column::<Velocity>();
    let c2 = pool.ensure_column::<Velocity>();
    assert_eq!(c1, c2);
}

#[test]
fn different_types_get_different_columns() {
    let mut pool = TypePool::new();
    let cv = pool.ensure_column::<Velocity>();
    let cn = pool.ensure_column::<Name>();
    assert_ne!(cv, cn);
}

#[test]
fn scope_temporarily_removes_value() {
    let mut pool = TypePool::new();
    let key = pool.insert(Velocity(5.0));
    let result = pool.scope::<Velocity, _>(&key, |val, inner| {
        // Value is absent during the closure.
        assert!(inner.get::<Velocity>(&key).is_none());
        val.0 * 2.0
    });
    assert_eq!(result, Some(10.0));
    // Value is restored after scope.
    assert_eq!(pool.get::<Velocity>(&key), Some(&Velocity(5.0)));
}

#[test]
fn scope_restores_mutation() {
    let mut pool = TypePool::new();
    let key = pool.insert(Velocity(5.0));
    pool.scope::<Velocity, _>(&key, |val, _| {
        val.0 = 99.0;
    });
    assert_eq!(pool.get::<Velocity>(&key), Some(&Velocity(99.0)));
}

#[test]
fn scope_absent_key_returns_none() {
    let mut pool = TypePool::new();
    let key = pool.insert(Velocity(1.0));
    pool.remove::<Velocity>(&key);
    assert!(pool.scope::<Velocity, _>(&key, |_, _| ()).is_none());
}

#[test]
fn scope_can_insert_into_pool() {
    let mut pool = TypePool::new();
    let key = pool.insert(Velocity(1.0));
    pool.scope::<Velocity, _>(&key, |_, inner| {
        inner.insert(Name(String::from("side value")));
    });
    assert_eq!(pool.get::<Velocity>(&key), Some(&Velocity(1.0)));
}

#[test]
fn placeholder_key_points_past_every_column() {
    let mut pool = TypePool::new();
    pool.insert(Velocity(1.0));
    let placeholder = PoolKey::PLACEHOLDER();
    assert_eq!(placeholder.col_id().index(), usize::MAX);
    assert!(!pool.contains(&placeholder));
    assert!(pool.value_type_id(&placeholder).is_none());
    assert!(pool.get::<Velocity>(&placeholder).is_none());
}

#[test]
fn columns_are_numbered_in_creation_order() {
    let mut pool = TypePool::default();
    assert_eq!(pool.ensure_column::<Velocity>().index(), 0);
    assert_eq!(pool.ensure_column::<Name>().index(), 1);
    assert_eq!(pool.ensure_column::<u8>().index(), 2);
    assert_eq!(pool.ensure_column::<Name>().index(), 1);
    let key = pool.insert(7u8);
    assert_eq!(key.col_id().index(), 2);
}

#[test]
fn contains_follows_insert_and_remove() {
    let mut pool = TypePool::new();
    let k1 = pool.insert(Velocity(1.0));
    let k2 = pool.insert(Velocity(2.0));
    assert!(pool.contains(&k1) && pool.contains(&k2));
    assert_eq!(pool.remove::<Velocity>(&k1), Some(Velocity(1.0)));
    assert!(!pool.contains(&k1));
    assert!(pool.contains(&k2));
}

#[test]
fn remove_with_wrong_type_changes_nothing() {
    let mut pool = TypePool::new();
    let key = pool.insert(Velocity(3.0));
    assert!(pool.remove::<Name>(&key).is_none());
    assert!(pool.contains(&key));
    assert_eq!(pool.get::<Velocity>(&key), Some(&Velocity(3.0)));
}

#[test]
fn stale_key_does_not_reach_reused_slot() {
    let mut pool = TypePool::new();
    let old = pool.insert(Velocity(1.0));
    pool.remove::<Velocity>(&old);
    let new = pool.insert(Velocity(2.0));
    assert_ne!(old, new);
    assert!(pool.get::<Velocity>(&old).is_none());
    assert_eq!(pool.get::<Velocity>(&new), Some(&Velocity(2.0)));
}

#[test]
fn value_type_id_names_the_column_type() {
    let mut pool = TypePool::new();
    let kv = pool.insert(Velocity(1.0));
    let kn = pool.insert(Name(String::from("n")));
    assert_eq!(pool.value_type_id(&kv), Some(std::any::TypeId::of::<Velocity>()));
    assert_eq!(pool.value_type_id(&kn), Some(std::any::TypeId::of::<Name>()));
}

#[test]
fn len_and_is_empty_count_per_type() {
    let mut pool = TypePool::new();
    assert_eq!(pool.len::<Velocity>(), 0);
    assert!(pool.is_empty::<Velocity>());
    pool.insert(Velocity(1.0));
    pool.insert(Velocity(2.0));
    pool.insert(Name(String::from("a")));
    assert_eq!(pool.len::<Velocity>(), 2);
    assert_eq!(pool.len::<Name>(), 1);
    assert!(!pool.is_empty::<Name>());
    assert!(pool.is_empty::<u32>());
}

#[test]
fn iter_yields_live_values_of_one_type() {
    let mut pool = TypePool::new();
    let k = pool.insert(Velocity(1.0));
    pool.insert(Velocity(2.0));
    pool.insert(Velocity(3.0));
    pool.insert(Name(String::from("other")));
    pool.remove::<Velocity>(&k);
    let mut seen: Vec<f32> = pool.iter::<Velocity>().map(|v| v.0).collect();
    seen.sort_by(|a, b| a.partial_cmp(b).unwrap());
    assert_eq!(seen, vec![2.0, 3.0]);
    assert_eq!(pool.iter::<u64>().count(), 0);
}

#[test]
fn drain_empties_the_column() {
    let mut pool = TypePool::new();
    let k = pool.insert(Velocity(1.0));
    pool.insert(Velocity(2.0));
    let kn = pool.insert(Name(String::from("kept")));
    let mut drained: Vec<f32> = pool.drain::<Velocity>().map(|v| v.0).collect();
    drained.sort_by(|a, b| a.partial_cmp(b).unwrap());
    assert_eq!(drained, vec![1.0, 2.0]);
    assert!(pool.is_empty::<Velocity>());
    assert!(!pool.contains(&k));
    assert!(pool.contains(&kn));
    assert_eq!(pool.drain::<u64>().count(), 0);
}

#[test]
fn len_counts_value_checked_out_by_scope() {
    let mut pool = TypePool::new();
    let key = pool.insert(Velocity(1.0));
    let inside = pool.scope::<Velocity, _>(&key, |_, inner| {
        (inner.len::<Velocity>(), inner.contains(&key))
    });
    assert_eq!(inside, Some((1, false)));
}

#[test]
fn clear_inside_scope_keeps_scoped_value() {
    let mut pool = TypePool::new();
    let key = pool.insert(Velocity(1.0));
    let other = pool.insert(Velocity(2.0));
    pool.scope::<Velocity, _>(&key, |_, inner| {
        assert!(inner.clear::<Velocity>());
    });
    assert_eq!(pool.get::<Velocity>(&key), Some(&Velocity(1.0)));
    assert!(pool.get::<Velocity>(&other).is_none());
}

#[test]
fn scope_with_wrong_type_returns_none() {
    let mut pool = TypePool::new();
    let key = pool.insert(Velocity(1.0));
    assert!(pool.scope::<Name, _>(&key, |_, _| ()).is_none());
    assert_eq!(pool.get::<Velocity>(&key), Some(&Velocity(1.0)));
}

#[test]
fn readme_pool_example() {
    let mut pool = TypePool::new();
    let speed = pool.insert(3.14_f32);
    let label = pool.insert("hello");
    assert_eq!(pool.get::<f32>(&speed), Some(&3.14));
    assert_eq!(pool.get::<&str>(&label), Some(&"hello"));
    assert_eq!(pool.remove::<f32>(&speed), Some(3.14));
    assert_eq!(pool.get::<f32>(&speed), None);
}
