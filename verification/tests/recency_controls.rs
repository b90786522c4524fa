use lru_cache::LRUCache;

#[test]
fn move_to_front_protects_from_eviction() {
    let mut c: LRUCache<u64> = LRUCache::new(2);
    c.put(1, 1);
    c.put(2, 2);
    // key 1 is the least recently used; protect it without reading it
    c.move_to_front(1);
    c.put(3, 3);
    assert_eq!(c.get(2), None);
    assert_eq!(c.get(1), Some(&1));
    assert_eq!(c.get(3), Some(&3));
}

#[test]
fn move_to_back_marks_for_eviction() {
    let mut c: LRUCache<u64> = LRUCache::new(2);
    c.put(1, 1);
    c.put(2, 2);
    // key 2 is the most recently used; mark it for eviction anyway
    c.move_to_back(2);
    c.put(3, 3);
    assert_eq!(c.get(2), None);
    assert_eq!(c.get(1), Some(&1));
    assert_eq!(c.get(3), Some(&3));
}

#[test]
fn move_to_back_sole_key_then_insert_evicts_it() {
    // capacity 1: the sole, most recently used key is evicted by the next
    // insert after move_to_back, even though it was never read
    let mut c: LRUCache<u64> = LRUCache::new(1);
    c.put(1, 1);
    c.move_to_back(1);
    c.put(2, 2);
    assert_eq!(c.get(1), None);
    assert_eq!(c.get(2), Some(&2));
}

#[test]
fn move_to_front_twice_same_as_once() {
    // two caches, same history but for a repeated move_to_front, behave alike
    let mut once: LRUCache<u64> = LRUCache::new(2);
    once.put(1, 1);
    once.put(2, 2);
    once.move_to_front(1);
    let mut twice: LRUCache<u64> = LRUCache::new(2);
    twice.put(1, 1);
    twice.put(2, 2);
    twice.move_to_front(1);
    twice.move_to_front(1);
    // the next insert evicts the back of each order: the same key for both
    once.put(3, 3);
    twice.put(3, 3);
    assert_eq!(once.get(1), Some(&1));
    assert_eq!(twice.get(1), Some(&1));
    assert_eq!(once.get(2), None);
    assert_eq!(twice.get(2), None);
    assert_eq!(once.get(3), Some(&3));
    assert_eq!(twice.get(3), Some(&3));
}

#[test]
fn operations_on_never_seen_key_mutate_nothing() {
    let mut c: LRUCache<u64> = LRUCache::new(2);
    c.put(1, 1);
    c.put(2, 2);
    assert_eq!(c.get(99), None);
    c.remove(99);
    c.move_to_front(99);
    c.move_to_back(99);
    // the recency order is untouched: key 1 is still the one evicted next
    c.put(3, 3);
    assert_eq!(c.get(1), None);
    assert_eq!(c.get(2), Some(&2));
    assert_eq!(c.get(3), Some(&3));
}

#[test]
fn move_to_front_absent_key_does_not_insert() {
    let mut c: LRUCache<u64> = LRUCache::new(2);
    c.move_to_front(5);
    c.move_to_back(5);
    assert_eq!(c.get(5), None);
}
