use lru_cache::{CacheError, LRUCache};

fn s(x: &str) -> String {
    x.to_string()
}

#[test]
fn test_empty_get() {
    let mut c: LRUCache<String, ()> = LRUCache::new(3).unwrap();
    assert_eq!(c.get(&"foo".to_string()), None)
}

#[test]
fn test_put_get() {
    let mut c: LRUCache<String, ()> = LRUCache::new(3).unwrap();
    c.put(&"foo".to_string(), ());
    c.put(&"bar".to_string(), ());
    c.put(&"baz".to_string(), ());
    assert_eq!(c.get(&"foo".to_string()), Some(&()));
    assert_eq!(c.get(&"bar".to_string()), Some(&()));
    assert_eq!(c.get(&"baz".to_string()), Some(&()));
    assert_eq!(c.get(&"quux".to_string()), None);
}

#[test]
fn test_churn_fifo() {
    let mut c: LRUCache<String, ()> = LRUCache::new(3).unwrap();
    c.put(&"foo".to_string(), ());
    c.put(&"bar".to_string(), ());
    c.put(&"baz".to_string(), ());
    c.put(&"quux".to_string(), ());
    assert_eq!(c.get(&"foo".to_string()), None);
    assert_eq!(c.get(&"bar".to_string()), Some(&()));
    assert_eq!(c.get(&"baz".to_string()), Some(&()));
    assert_eq!(c.get(&"quux".to_string()), Some(&()));
}

#[test]
fn test_churn_bump() {
    let mut c: LRUCache<String, ()> = LRUCache::new(3).unwrap();
    c.put(&"foo".to_string(), ());
    c.put(&"bar".to_string(), ());
    c.put(&"baz".to_string(), ());
    c.get(&"foo".to_string());
    c.put(&"quux".to_string(), ());
    assert_eq!(c.get(&"foo".to_string()), Some(&()));
    assert_eq!(c.get(&"bar".to_string()), None);
    assert_eq!(c.get(&"baz".to_string()), Some(&()));
    assert_eq!(c.get(&"quux".to_string()), Some(&()));
}

#[test]
fn test_churn_bump2() {
    let mut c: LRUCache<String, ()> = LRUCache::new(3).unwrap();
    c.put(&"foo".to_string(), ());
    c.put(&"bar".to_string(), ());
    c.put(&"baz".to_string(), ());
    c.get(&"foo".to_string());
    c.get(&"bar".to_string());
    c.put(&"quux".to_string(), ());
    assert_eq!(c.get(&"foo".to_string()), Some(&()));
    assert_eq!(c.get(&"bar".to_string()), Some(&()));
    assert_eq!(c.get(&"baz".to_string()), None);
    assert_eq!(c.get(&"quux".to_string()), Some(&()));
}

#[test]
fn zero_capacity_is_refused() {
    let r: Result<LRUCache<String, i32>, CacheError> = LRUCache::new(0);
    assert_eq!(r.err(), Some(CacheError::InvalidCapacity));
}

#[test]
fn capacity_one_keeps_last_key() {
    let mut c: LRUCache<u64, u64> = LRUCache::new(1).unwrap();
    c.put(&1, 10);
    c.put(&2, 20);
    assert_eq!(c.get(&1), None);
    assert_eq!(c.get(&2), Some(&20));
    c.get(&2);
    c.put(&3, 30);
    assert_eq!(c.get(&2), None);
    assert_eq!(c.get(&3), Some(&30));
}

#[test]
fn occupied_count_stays_within_capacity() {
    let mut c: LRUCache<u64, u64> = LRUCache::new(4).unwrap();
    for i in 0..20u64 {
        c.put(&i, i * 2);
    }
    let mut hits: u64 = 0;
    for i in 0..20u64 {
        if c.get(&i).is_some() {
            hits += 1;
        }
    }
    assert_eq!(hits, 4);
    for i in 16..20u64 {
        assert_eq!(c.get(&i), Some(&(i * 2)));
    }
}

#[test]
fn interior_promotion_keeps_order() {
    let mut c: LRUCache<String, i32> = LRUCache::new(5).unwrap();
    for (i, k) in ["a", "b", "c", "d", "e"].iter().enumerate() {
        c.put(&s(k), i as i32);
    }
    // Recency order is now a b c d e; read the interior c, then b.
    assert_eq!(c.get(&s("c")), Some(&2));
    assert_eq!(c.get(&s("b")), Some(&1));
    // Order a d e c b: three new keys evict a, d and e.
    c.put(&s("f"), 5);
    c.put(&s("g"), 6);
    c.put(&s("h"), 7);
    assert_eq!(c.get(&s("a")), None);
    assert_eq!(c.get(&s("d")), None);
    assert_eq!(c.get(&s("e")), None);
    assert_eq!(c.get(&s("c")), Some(&2));
    assert_eq!(c.get(&s("b")), Some(&1));
    assert_eq!(c.get(&s("f")), Some(&5));
    // Order g h c b f: next evicted is g.
    c.put(&s("i"), 8);
    assert_eq!(c.get(&s("g")), None);
    assert_eq!(c.get(&s("h")), Some(&7));
}

#[test]
fn update_replaces_value_in_place() {
    let mut c: LRUCache<String, i32> = LRUCache::new(2).unwrap();
    c.put(&s("x"), 1);
    c.put(&s("y"), 2);
    c.put(&s("x"), 3);
    assert_eq!(c.get(&s("x")), Some(&3));
    assert_eq!(c.get(&s("y")), Some(&2));
    // The update made x more recent than y before the reads; after them y is
    // the most recent, so a new key evicts x.
    c.put(&s("z"), 4);
    assert_eq!(c.get(&s("x")), None);
    assert_eq!(c.get(&s("y")), Some(&2));
    assert_eq!(c.get(&s("z")), Some(&4));
}

#[test]
fn update_refreshes_recency() {
    let mut c: LRUCache<String, i32> = LRUCache::new(2).unwrap();
    c.put(&s("x"), 1);
    c.put(&s("y"), 2);
    c.put(&s("x"), 3);
    c.put(&s("z"), 4);
    assert_eq!(c.get(&s("y")), None);
    assert_eq!(c.get(&s("x")), Some(&3));
    assert_eq!(c.get(&s("z")), Some(&4));
}

#[test]
fn repeated_get_returns_same_value() {
    let mut c: LRUCache<String, i32> = LRUCache::new(3).unwrap();
    c.put(&s("k"), 42);
    c.put(&s("j"), 7);
    assert_eq!(c.get(&s("k")), Some(&42));
    assert_eq!(c.get(&s("k")), Some(&42));
    assert_eq!(c.get(&s("k")), Some(&42));
}

#[test]
fn read_protects_from_next_eviction() {
    let mut c: LRUCache<u64, u64> = LRUCache::new(2).unwrap();
    c.put(&1, 1);
    c.put(&2, 2);
    assert_eq!(c.get(&1), Some(&1));
    c.put(&3, 3);
    assert_eq!(c.get(&1), Some(&1));
    assert_eq!(c.get(&2), None);
}

#[test]
fn miss_does_not_touch() {
    let mut c: LRUCache<u64, u64> = LRUCache::new(2).unwrap();
    c.put(&1, 1);
    c.put(&2, 2);
    assert_eq!(c.get(&9), None);
    c.put(&3, 3);
    assert_eq!(c.get(&1), None);
    assert_eq!(c.get(&2), Some(&2));
}
