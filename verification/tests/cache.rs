//! Behaviour of the single-segment SIEVE cache.

use std::cell::RefCell;
use std::rc::Rc;

use rmemstore::cache::Cache;
use rmemstore::cache::DefaultLifecycle;
use rmemstore::cache::Lifecycle;
use rmemstore::cache::One;

type StringCache = Cache<String, One, DefaultLifecycle>;

fn key(s: &str) -> Vec<u8> {
    s.as_bytes().to_vec()
}

/// Records every eviction the cache reports.
struct Recorder {
    events: Rc<RefCell<Vec<(Vec<u8>, String)>>>,
}

impl Lifecycle<String> for Recorder {
    fn on_eviction(&self, key: Vec<u8>, value: String) {
        self.events.borrow_mut().push((key, value));
    }
}

#[test]
fn test_put() {
    let mut cache: StringCache = Cache::new(100);
    cache.put(key("key1"), "value1".to_string());
    assert_eq!(cache.get(&key("key1")), Some(&"value1".to_string()));
    cache.put(key("key1"), "value2".to_string());
    assert_eq!(cache.get(&key("key1")), Some(&"value2".to_string()));
    assert_eq!(cache.tracked_weight(), 1);
    assert_eq!(cache.len(), 1);
    assert_eq!(cache.sieve_len(), 1);
}

#[test]
fn capacity_holds_after_every_put() {
    let mut cache: StringCache = Cache::new(3);
    for i in 0..20 {
        cache.put(key(&format!("k{}", i)), format!("v{}", i));
        assert!(cache.tracked_weight() <= 3);
        assert_eq!(cache.tracked_weight(), cache.len());
    }
}

#[test]
fn weight_matches_live_entries_after_mixed_operations() {
    let mut cache: StringCache = Cache::new(10);
    for i in 0..8 {
        cache.put(key(&format!("k{}", i)), format!("v{}", i));
    }
    cache.remove(&key("k2"));
    cache.remove(&key("k5"));
    cache.remove(&key("missing"));
    cache.put(key("k2"), "again".to_string());
    // With the constant weigher, the tracked weight is the live entry count.
    assert_eq!(cache.tracked_weight(), cache.len());
    assert_eq!(cache.tracked_weight(), 7);
}

#[test]
fn get_after_put_returns_the_value_just_put() {
    let mut cache: StringCache = Cache::new(2);
    cache.put(key("a"), "1".to_string());
    cache.put(key("b"), "2".to_string());
    // Even when this put must evict, the put key itself is always bound.
    cache.put(key("c"), "3".to_string());
    assert_eq!(cache.get(&key("c")), Some(&"3".to_string()));
}

#[test]
fn get_misses_for_absent_keys() {
    let mut cache: StringCache = Cache::new(2);
    // Never put.
    assert_eq!(cache.get(&key("never")), None);
    // Put then removed.
    cache.put(key("a"), "1".to_string());
    assert_eq!(cache.remove(&key("a")), Some("1".to_string()));
    assert_eq!(cache.get(&key("a")), None);
    // Removing an absent key is a silent miss.
    assert_eq!(cache.remove(&key("a")), None);
}

#[test]
fn evicted_key_misses() {
    let events = Rc::new(RefCell::new(Vec::new()));
    let recorder = Recorder { events: events.clone() };
    let mut cache: Cache<String, One, Recorder> = Cache::new_with_lifecycle(1, recorder);
    cache.put(key("a"), "1".to_string());
    cache.put(key("b"), "2".to_string());
    assert_eq!(cache.get(&key("a")), None);
    assert_eq!(cache.get(&key("b")), Some(&"2".to_string()));
    assert_eq!(events.borrow().len(), 1);
    assert_eq!(events.borrow()[0], (key("a"), "1".to_string()));
}

#[test]
fn scan_resistance_spares_the_visited_key() {
    let mut cache: StringCache = Cache::new(3);
    cache.put(key("a"), "1".to_string());
    cache.put(key("b"), "2".to_string());
    cache.put(key("c"), "3".to_string());
    // Overflow once: the first sweep demotes the whole insertion
    // generation before it can evict.
    cache.put(key("d"), "4".to_string());
    // Touch one survivor of that demoted generation.
    assert_eq!(cache.get(&key("b")), Some(&"2".to_string()));
    // The next eviction passes over the visited key and takes an
    // unvisited one from the same generation instead.
    cache.put(key("e"), "5".to_string());
    assert_eq!(cache.get(&key("b")), Some(&"2".to_string()));
    assert_eq!(cache.get(&key("c")), None);
    assert!(cache.len() <= 3);
    assert_eq!(cache.tracked_weight(), cache.len());
}

#[test]
fn stale_records_are_cleaned_silently() {
    let events = Rc::new(RefCell::new(Vec::new()));
    let recorder = Recorder { events: events.clone() };
    let mut cache: Cache<String, One, Recorder> = Cache::new_with_lifecycle(2, recorder);
    cache.put(key("a"), "1".to_string());
    cache.put(key("b"), "2".to_string());
    // Remove a key: its sieve record goes stale but stays queued.
    assert_eq!(cache.remove(&key("a")), Some("1".to_string()));
    assert_eq!(cache.sieve_len(), 2);
    // Drive the sweep past the stale record with more puts.
    cache.put(key("c"), "3".to_string());
    cache.put(key("d"), "4".to_string());
    // No eviction was ever reported for the removed key.
    assert!(events.borrow().iter().all(|(k, _)| k != &key("a")));
    // And the accounting stayed intact.
    assert_eq!(cache.tracked_weight(), cache.len());
    assert!(cache.tracked_weight() <= 2);
}

#[test]
fn lifecycle_reports_exactly_the_lost_entries() {
    let events = Rc::new(RefCell::new(Vec::new()));
    let recorder = Recorder { events: events.clone() };
    let mut cache: Cache<String, One, Recorder> = Cache::new_with_lifecycle(3, recorder);
    let keys: Vec<String> = (0..9).map(|i| format!("k{}", i)).collect();
    for (i, k) in keys.iter().enumerate() {
        cache.put(key(k), format!("v{}", i));
    }
    let recorded = events.borrow();
    for k in &keys {
        let retrievable = cache.get(&key(k)).is_some();
        let evicted = recorded.iter().any(|(ek, _)| ek == &key(k));
        // No key is both retrievable and recorded as evicted, and every
        // lost key was recorded with the value it held.
        assert!(
            retrievable != evicted,
            "key {} retrievable={} evicted={}",
            k,
            retrievable,
            evicted
        );
    }
    for (ek, ev) in recorded.iter() {
        let i: usize = String::from_utf8(ek[1..].to_vec()).unwrap().parse().unwrap();
        assert_eq!(ev, &format!("v{}", i));
    }
}

#[test]
fn replacement_charges_only_the_weight_difference() {
    let mut cache: StringCache = Cache::new(4);
    cache.put(key("a"), "1".to_string());
    cache.put(key("b"), "2".to_string());
    cache.put(key("c"), "3".to_string());
    cache.put(key("b"), "2b".to_string());
    assert_eq!(cache.len(), 3);
    assert_eq!(cache.tracked_weight(), 3);
    assert_eq!(cache.sieve_len(), 3);
    assert_eq!(cache.get(&key("a")), Some(&"1".to_string()));
    assert_eq!(cache.get(&key("b")), Some(&"2b".to_string()));
    assert_eq!(cache.get(&key("c")), Some(&"3".to_string()));
}

#[test]
fn empty_cache_reports_empty() {
    let mut cache: StringCache = Cache::new(0);
    assert_eq!(cache.tracked_weight(), 0);
    assert_eq!(cache.len(), 0);
    assert_eq!(cache.sieve_len(), 0);
    assert_eq!(cache.get(&key("x")), None);
    assert_eq!(cache.remove(&key("x")), None);
}
