use lru_cache::LRUCache;

#[test]
fn empty_cache_reports_absent() {
    let mut c: LRUCache<u64> = LRUCache::new(4);
    assert_eq!(c.get(7), None);
}

#[test]
fn put_then_get_returns_value() {
    let mut c: LRUCache<u64> = LRUCache::new(4);
    c.put(7, 700);
    assert_eq!(c.get(7), Some(&700));
}

#[test]
fn capacity_two_third_insert_evicts_first() {
    // put(a,1), put(b,2), put(c,3) => a absent, b = 2, c = 3
    let mut c: LRUCache<u64> = LRUCache::new(2);
    c.put(1, 1);
    c.put(2, 2);
    c.put(3, 3);
    assert_eq!(c.get(1), None);
    assert_eq!(c.get(2), Some(&2));
    assert_eq!(c.get(3), Some(&3));
}

#[test]
fn read_protects_from_eviction() {
    // put(a,1), put(b,2), get(a), put(c,3) => b absent, a = 1, c = 3
    let mut c: LRUCache<u64> = LRUCache::new(2);
    c.put(1, 1);
    c.put(2, 2);
    assert_eq!(c.get(1), Some(&1));
    c.put(3, 3);
    assert_eq!(c.get(2), None);
    assert_eq!(c.get(1), Some(&1));
    assert_eq!(c.get(3), Some(&3));
}

#[test]
fn lru_eviction_with_capacity_three() {
    let mut c: LRUCache<u64> = LRUCache::new(3);
    c.put(1, 10);
    c.put(2, 20);
    c.put(3, 30);
    assert_eq!(c.get(1), Some(&10));
    c.put(4, 40);
    // key 2 was the least recently used, not key 1
    assert_eq!(c.get(2), None);
    assert_eq!(c.get(1), Some(&10));
    assert_eq!(c.get(3), Some(&30));
    assert_eq!(c.get(4), Some(&40));
}

#[test]
fn capacity_plus_one_inserts_keep_most_recent() {
    let mut c: LRUCache<u64> = LRUCache::new(3);
    c.put(10, 1);
    c.put(11, 2);
    c.put(12, 3);
    c.put(13, 4);
    assert_eq!(c.get(10), None);
    assert_eq!(c.get(11), Some(&2));
    assert_eq!(c.get(12), Some(&3));
    assert_eq!(c.get(13), Some(&4));
}

#[test]
fn update_existing_key_does_not_evict() {
    let mut c: LRUCache<u64> = LRUCache::new(2);
    c.put(1, 1);
    c.put(2, 2);
    // the cache is full; updating key 1 must evict nothing
    c.put(1, 9);
    assert_eq!(c.get(2), Some(&2));
    assert_eq!(c.get(1), Some(&9));
}

#[test]
fn update_makes_key_most_recently_used() {
    let mut c: LRUCache<u64> = LRUCache::new(2);
    c.put(1, 1);
    c.put(2, 2);
    // updating key 1 promotes it, so key 2 becomes least recently used
    c.put(1, 9);
    c.put(3, 3);
    assert_eq!(c.get(2), None);
    assert_eq!(c.get(1), Some(&9));
    assert_eq!(c.get(3), Some(&3));
}

#[test]
fn remove_deletes_and_makes_room() {
    let mut c: LRUCache<u64> = LRUCache::new(2);
    c.put(1, 1);
    c.put(2, 2);
    c.remove(1);
    assert_eq!(c.get(1), None);
    // one slot is free again: the next insert evicts nothing
    c.put(3, 3);
    assert_eq!(c.get(2), Some(&2));
    assert_eq!(c.get(3), Some(&3));
}

#[test]
fn remove_absent_key_is_no_op() {
    let mut c: LRUCache<u64> = LRUCache::new(2);
    c.put(1, 1);
    c.remove(99);
    assert_eq!(c.get(1), Some(&1));
}

#[test]
fn repeated_put_of_same_key_occupies_one_slot() {
    let mut c: LRUCache<u64> = LRUCache::new(2);
    c.put(1, 1);
    c.put(1, 1);
    c.put(2, 2);
    // key 1 holds one slot, not two: both keys fit in a capacity-2 cache
    assert_eq!(c.get(1), Some(&1));
    assert_eq!(c.get(2), Some(&2));
}

#[test]
fn at_most_capacity_keys_are_retained() {
    let mut c: LRUCache<u64> = LRUCache::new(2);
    for k in 0..10u64 {
        c.put(k, k);
    }
    // a successful get never evicts, so counting by get is sound
    let mut present = 0;
    for k in 0..10u64 {
        if c.get(k).is_some() {
            present += 1;
        }
    }
    assert_eq!(present, 2);
    assert_eq!(c.get(8), Some(&8));
    assert_eq!(c.get(9), Some(&9));
}

#[test]
fn zero_capacity_never_retains() {
    // capacity zero is accepted: every insert is a no-op
    let mut c: LRUCache<u64> = LRUCache::new(0);
    c.put(1, 1);
    assert_eq!(c.get(1), None);
    c.put(2, 2);
    assert_eq!(c.get(1), None);
    assert_eq!(c.get(2), None);
}

#[test]
fn non_copy_values_are_stored() {
    let mut c: LRUCache<String> = LRUCache::new(2);
    c.put(1, String::from("one"));
    c.put(2, String::from("two"));
    assert_eq!(c.get(1), Some(&String::from("one")));
    c.put(3, String::from("three"));
    assert_eq!(c.get(2), None);
    assert_eq!(c.get(3), Some(&String::from("three")));
}
