use std::cmp::Ordering;
use std::collections::hash_map::DefaultHasher;
use std::hash::{Hash, Hasher};
use typarena::id::{GenId, IdGenerator};

#[derive(Debug, PartialEq, Eq, Hash, PartialOrd, Ord)]
struct Entity;

fn hash_of<H: Hash>(value: &H) -> u64 {
    let mut hasher = DefaultHasher::new();
    value.hash(&mut hasher);
    hasher.finish()
}

#[test]
fn fresh_ids_count_up_from_zero() {
    let mut ids = IdGenerator::<Entity>::new();
    assert_eq!(ids.new_id().to_string(), "0v0");
    assert_eq!(ids.new_id().to_string(), "1v0");
    assert_eq!(ids.new_id().to_string(), "2v0");
}

#[test]
fn recycled_id_comes_back_with_next_generation() {
    let mut ids = IdGenerator::<Entity>::new();
    let a = ids.new_id();
    let _b = ids.new_id();
    ids.recycle(a);
    let c = ids.new_id();
    assert_eq!(c.to_string(), "0v1");
    assert_ne!(a, c);
    // The generator is back where it was: the next fresh slot is 2.
    assert_eq!(ids.new_id().to_string(), "2v0");
}

#[test]
fn recycled_ids_are_reused_last_in_first_out() {
    let mut ids = IdGenerator::<Entity>::default();
    let a = ids.new_id();
    let b = ids.new_id();
    ids.recycle(a);
    ids.recycle(b);
    assert_eq!(ids.new_id().to_string(), "1v1");
    assert_eq!(ids.new_id().to_string(), "0v1");
}

#[test]
fn outstanding_ids_never_share_a_slot() {
    let mut ids = IdGenerator::<Entity>::new();
    let mut live: Vec<GenId<Entity>> = Vec::new();
    for round in 0..5 {
        live.push(ids.new_id());
        live.push(ids.new_id());
        if round % 2 == 0 {
            let back = live.remove(0);
            ids.recycle(back);
        }
    }
    for i in 0..live.len() {
        for j in 0..live.len() {
            if i != j {
                let si = live[i].to_string();
                let sj = live[j].to_string();
                let slot_i = si.split('v').next().unwrap().to_string();
                let slot_j = sj.split('v').next().unwrap().to_string();
                assert_ne!(slot_i, slot_j);
            }
        }
    }
}

#[test]
fn generation_wraps_at_u32_max() {
    let mut ids = IdGenerator::<Entity>::new();
    ids.recycle(GenId::PLACEHOLDER());
    let wrapped = ids.new_id();
    assert_eq!(wrapped.to_string(), "4294967295v0");
    assert_ne!(wrapped, GenId::PLACEHOLDER());
}

#[test]
fn placeholder_is_max_slot_and_generation() {
    let p = GenId::<Entity>::PLACEHOLDER();
    assert_eq!(p.to_string(), "4294967295v4294967295");
    assert_eq!(p, GenId::<Entity>::PLACEHOLDER());
}

#[test]
fn ids_order_by_slot_then_generation() {
    let mut ids = IdGenerator::<Entity>::new();
    let a = ids.new_id();
    let b = ids.new_id();
    assert_eq!(a.partial_cmp(&b), Some(Ordering::Less));
    assert_eq!(b.cmp(&a), Ordering::Greater);
    ids.recycle(a);
    let a2 = ids.new_id();
    assert_eq!(a.partial_cmp(&a2), Some(Ordering::Less));
    assert!(a2 < b);
    assert_eq!(a.partial_cmp(&a), Some(Ordering::Equal));
}

#[test]
fn copies_compare_and_hash_equal() {
    let mut ids = IdGenerator::<Entity>::new();
    let a = ids.new_id();
    let copy = a;
    let cloned = a.clone();
    assert_eq!(a, copy);
    assert_eq!(a, cloned);
    assert_eq!(hash_of(&a), hash_of(&cloned));
}
