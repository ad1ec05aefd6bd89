//! Data-engine behavior: expiry, hash isolation, type replacement,
//! the reaper sweep, and the bounded delivery queues.

use mini_redis::db::{Db, FieldPair, QUEUE_CAPACITY};

fn v(b: &[u8]) -> Vec<u8> {
    b.to_vec()
}

#[test]
fn expiry_correctness() {
    let mut db = Db::new();
    let now: u64 = 1_000;
    db.set(v(b"k"), v(b"v"), Some(now + 50));
    assert_eq!(db.get(&v(b"k"), now), Some(v(b"v")));
    assert_eq!(db.get(&v(b"k"), now + 49), Some(v(b"v")));
    // from the deadline on the key reads as absent, reaper or not
    assert_eq!(db.get(&v(b"k"), now + 50), None);
    assert_eq!(db.get(&v(b"k"), now + 51), None);
}

#[test]
fn set_replaces_value_and_deadline() {
    let mut db = Db::new();
    db.set(v(b"k"), v(b"v1"), Some(10));
    db.set(v(b"k"), v(b"v2"), None);
    // the second write cleared the deadline entirely
    assert_eq!(db.get(&v(b"k"), 1_000_000), Some(v(b"v2")));
}

#[test]
fn hash_isolation() {
    let mut db = Db::new();
    let now: u64 = 0;
    db.hset(v(b"k"), v(b"f1"), v(b"a"), now);
    db.hset(v(b"k"), v(b"f2"), v(b"b"), now);
    assert_eq!(db.hget(&v(b"k"), &v(b"f1"), now), Some(v(b"a")));
    assert_eq!(db.hget(&v(b"k"), &v(b"f2"), now), Some(v(b"b")));
    assert_eq!(db.hget(&v(b"k"), &v(b"f3"), now), None);
    let all = db.hgetall(&v(b"k"), now).unwrap();
    assert_eq!(all.len(), 2);
    assert!(all.contains(&FieldPair { field: v(b"f1"), value: v(b"a") }));
    assert!(all.contains(&FieldPair { field: v(b"f2"), value: v(b"b") }));
}

#[test]
fn hset_overwrites_field() {
    let mut db = Db::new();
    db.hset(v(b"k"), v(b"f"), v(b"one"), 0);
    db.hset(v(b"k"), v(b"f"), v(b"two"), 0);
    assert_eq!(db.hget(&v(b"k"), &v(b"f"), 0), Some(v(b"two")));
    assert_eq!(db.hgetall(&v(b"k"), 0).unwrap().len(), 1);
}

#[test]
fn type_replacement() {
    let mut db = Db::new();
    db.set(v(b"k"), v(b"v1"), None);
    db.hset(v(b"k"), v(b"f"), v(b"v2"), 0);
    // the key now holds a field map, so a scalar read finds nothing
    assert_eq!(db.get(&v(b"k"), 0), None);
    assert_eq!(db.hget(&v(b"k"), &v(b"f"), 0), Some(v(b"v2")));
    // and the other way round
    db.set(v(b"k"), v(b"v3"), None);
    assert_eq!(db.hget(&v(b"k"), &v(b"f"), 0), None);
    assert_eq!(db.get(&v(b"k"), 0), Some(v(b"v3")));
}

#[test]
fn hget_on_scalar_is_none() {
    let mut db = Db::new();
    db.set(v(b"k"), v(b"v"), None);
    assert_eq!(db.hget(&v(b"k"), &v(b"f"), 0), None);
    assert!(db.hgetall(&v(b"k"), 0).is_none());
}

#[test]
fn reaper_sweep_and_next_deadline() {
    let mut db = Db::new();
    db.set(v(b"a"), v(b"1"), Some(100));
    db.set(v(b"b"), v(b"2"), Some(200));
    db.set(v(b"c"), v(b"3"), None);
    // nothing expired yet; the earliest pending deadline comes back
    assert_eq!(db.purge_expired(50), Some(100));
    assert_eq!(db.get(&v(b"a"), 50), Some(v(b"1")));
    // the first deadline passes
    assert_eq!(db.purge_expired(150), Some(200));
    assert_eq!(db.get(&v(b"a"), 150), None);
    assert_eq!(db.get(&v(b"b"), 150), Some(v(b"2")));
    // everything with a deadline is gone; none remains
    assert_eq!(db.purge_expired(500), None);
    assert_eq!(db.get(&v(b"c"), 500), Some(v(b"3")));
}

#[test]
fn publish_counts_subscribers() {
    let mut db = Db::new();
    assert_eq!(db.publish(&v(b"ch"), &v(b"m")), 0);
    db.subscribe(v(b"ch"), 1);
    db.subscribe(v(b"ch"), 2);
    assert_eq!(db.publish(&v(b"ch"), &v(b"msg")), 2);
}

#[test]
fn fanout_exactly_once_in_order() {
    let mut db = Db::new();
    db.subscribe(v(b"ch"), 1);
    db.subscribe(v(b"ch"), 2);
    assert_eq!(db.publish(&v(b"ch"), &v(b"first")), 2);
    assert_eq!(db.publish(&v(b"ch"), &v(b"second")), 2);
    for id in [1u64, 2u64] {
        assert_eq!(db.receive(&v(b"ch"), id), Some(v(b"first")));
        assert_eq!(db.receive(&v(b"ch"), id), Some(v(b"second")));
        assert_eq!(db.receive(&v(b"ch"), id), None);
    }
}

#[test]
fn unsubscribe_drops_empty_channel() {
    let mut db = Db::new();
    db.subscribe(v(b"ch"), 1);
    db.unsubscribe(&v(b"ch"), 1);
    // the entry went away with its last subscriber
    assert_eq!(db.publish(&v(b"ch"), &v(b"m")), 0);
}

#[test]
fn slow_subscriber_loses_oldest() {
    let mut db = Db::new();
    db.subscribe(v(b"ch"), 7);
    for i in 0..(QUEUE_CAPACITY + 1) {
        let msg = format!("m{}", i).into_bytes();
        assert_eq!(db.publish(&v(b"ch"), &msg), 1);
    }
    // the queue was full; the oldest message was dropped, the rest
    // arrive in order
    assert_eq!(db.receive(&v(b"ch"), 7), Some(b"m1".to_vec()));
}
