//! Behaviour of the sharded cache and the store built on it.

use rmemstore::messages;
use rmemstore::segmented::SegmentedCache;
use rmemstore::server::RMemstoreServer;
use rmemstore::types::MemstoreItem;
use rmemstore::types::MemstoreValue;
use rmemstore::types::MemstoreWeigher;
use rmemstore::One;

fn key(s: &str) -> Vec<u8> {
    s.as_bytes().to_vec()
}

fn blob(bytes: &[u8]) -> MemstoreValue {
    MemstoreValue::Blob { value: bytes.to_vec() }
}

#[test]
fn routing_is_deterministic_per_key() {
    let mut cache: SegmentedCache<String, One> = SegmentedCache::new(4, 100);
    for i in 0..32 {
        cache.put(key(&format!("k{}", i)), format!("v{}", i));
    }
    // Every key is found again: each repeated lookup routed to the same
    // segment its put went to.
    for i in 0..32 {
        assert_eq!(cache.get(&key(&format!("k{}", i))), Some(&format!("v{}", i)));
    }
}

#[test]
fn puts_to_different_keys_do_not_interfere() {
    let mut cache: SegmentedCache<String, One> = SegmentedCache::new(8, 800);
    cache.put(key("left"), "1".to_string());
    cache.put(key("right"), "2".to_string());
    assert_eq!(cache.get(&key("left")), Some(&"1".to_string()));
    assert_eq!(cache.get(&key("right")), Some(&"2".to_string()));
    // Re-putting one key leaves the other untouched.
    cache.put(key("left"), "1b".to_string());
    assert_eq!(cache.get(&key("left")), Some(&"1b".to_string()));
    assert_eq!(cache.get(&key("right")), Some(&"2".to_string()));
}

#[test]
fn budget_splits_evenly_across_segments() {
    // Two segments sharing ten units: each enforces five on its own, so
    // twelve distinct unit-weight keys cannot all stay.
    let mut cache: SegmentedCache<String, One> = SegmentedCache::new(2, 10);
    let mut live = 0;
    for i in 0..12 {
        cache.put(key(&format!("k{}", i)), format!("v{}", i));
    }
    for i in 0..12 {
        if cache.get(&key(&format!("k{}", i))).is_some() {
            live += 1;
        }
    }
    assert!(live <= 10);
}

#[test]
fn server_put_then_get_round_trips() {
    let mut server = RMemstoreServer::new(2, 1000);
    server.put(key("greeting"), MemstoreItem::new(blob(b"hello")));
    let item = server.get(&key("greeting")).expect("stored item must be found");
    assert_eq!(item.into_value(), blob(b"hello"));
    assert!(server.get(&key("absent")).is_none());
}

#[test]
fn put_command_acknowledges_and_stores() {
    let mut server = RMemstoreServer::new(2, 1000);
    let put = messages::Put {
        key: key("k"),
        value: Some(messages::Value {
            kind: Some(messages::value::Kind::Text("stored".to_string())),
        }),
    };
    let response = put.run(&mut server);
    assert_eq!(response, Some(messages::response::Kind::Ack(true)));
    let item = server.get(&key("k")).expect("the put command must have stored the value");
    assert_eq!(item.into_value(), MemstoreValue::Text { value: "stored".to_string() });
}

#[test]
fn get_command_answers_hit_and_miss() {
    let mut server = RMemstoreServer::new(2, 1000);
    server.put(key("k"), MemstoreItem::new(blob(b"payload")));
    let hit = messages::Get { key: key("k") }.run(&mut server);
    assert_eq!(
        hit,
        Some(messages::response::Kind::Value(messages::Value {
            kind: Some(messages::value::Kind::Blob(b"payload".to_vec())),
        }))
    );
    // A miss is an absent kind, distinct from a present-but-empty value.
    let miss = messages::Get { key: key("other") }.run(&mut server);
    assert_eq!(miss, None);
}

#[test]
fn put_command_rejects_missing_and_malformed_values() {
    let mut server = RMemstoreServer::new(2, 1000);
    let no_value = messages::Put { key: key("k"), value: None };
    assert_eq!(no_value.run(&mut server), None);
    let malformed = messages::Put {
        key: key("k"),
        value: Some(messages::Value { kind: None }),
    };
    assert_eq!(malformed.run(&mut server), None);
    assert!(server.get(&key("k")).is_none());
}

#[test]
fn server_weighs_items_by_payload_and_key() {
    let item = MemstoreItem::new(blob(&[1, 2, 3, 4]));
    assert_eq!(MemstoreItem::weigher(&key("ab"), &item), 6);
    let _unused: MemstoreWeigher = MemstoreWeigher;
}
