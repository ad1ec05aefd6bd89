//! Publish/subscribe through the dispatcher: fan-out, message frames,
//! and unsubscribe-all. These mirror the wire-level client scenarios,
//! driven synchronously against the engine.

use mini_redis::db::Db;
use mini_redis::dispatch::{handle, Session};
use mini_redis::frame::Frame;

fn bulk(b: &[u8]) -> Frame {
    Frame::Bulk(b.to_vec())
}

fn cmd_frame(parts: &[&[u8]]) -> Frame {
    Frame::Array(parts.iter().map(|p| bulk(p)).collect())
}

fn message(ch: &[u8], payload: &[u8]) -> Frame {
    Frame::Array(vec![bulk(b"message"), bulk(ch), bulk(payload)])
}

#[test]
fn ping_pong_without_message() {
    let mut db = Db::new();
    let mut s = Session::new(1);
    let replies = handle(&mut db, &mut s, cmd_frame(&[b"ping"]), 0);
    assert_eq!(replies, vec![Frame::Simple(b"PONG".to_vec())]);
}

#[test]
fn ping_pong_with_message() {
    let mut db = Db::new();
    let mut s = Session::new(1);
    let msg = "\u{4f60}\u{597d}\u{4e16}\u{754c}".as_bytes();
    let replies = handle(&mut db, &mut s, cmd_frame(&[b"ping", msg]), 0);
    assert_eq!(replies, vec![bulk(msg)]);
}

#[test]
fn key_value_get_set() {
    let mut db = Db::new();
    let mut s = Session::new(1);
    handle(&mut db, &mut s, cmd_frame(&[b"set", b"hello", b"world"]), 0);
    let mut s2 = Session::new(2);
    let replies = handle(&mut db, &mut s2, cmd_frame(&[b"get", b"hello"]), 0);
    assert_eq!(replies, vec![bulk(b"world")]);
}

#[test]
fn receive_message_subscribed_channel() {
    let mut db = Db::new();
    let mut subscriber = Session::new(1);
    handle(&mut db, &mut subscriber, cmd_frame(&[b"subscribe", b"hello"]), 0);

    let mut publisher = Session::new(2);
    let replies = handle(
        &mut db,
        &mut publisher,
        cmd_frame(&[b"publish", b"hello", b"world"]),
        0,
    );
    assert_eq!(replies, vec![Frame::Integer(1)]);

    let m = subscriber.poll_message(&mut db).unwrap();
    assert_eq!(m, message(b"hello", b"world"));
    assert!(subscriber.poll_message(&mut db).is_none());
}

#[test]
fn receive_message_multiple_subscribed_channels() {
    let mut db = Db::new();
    let mut subscriber = Session::new(1);
    let acks = handle(
        &mut db,
        &mut subscriber,
        cmd_frame(&[b"subscribe", b"hello", b"world"]),
        0,
    );
    assert_eq!(acks.len(), 2);

    let mut publisher = Session::new(2);
    handle(&mut db, &mut publisher, cmd_frame(&[b"publish", b"hello", b"world"]), 0);
    let m1 = subscriber.poll_message(&mut db).unwrap();
    assert_eq!(m1, message(b"hello", b"world"));

    handle(&mut db, &mut publisher, cmd_frame(&[b"publish", b"world", b"howdy?"]), 0);
    let m2 = subscriber.poll_message(&mut db).unwrap();
    assert_eq!(m2, message(b"world", b"howdy?"));
}

#[test]
fn unsubscribes_from_channels() {
    let mut db = Db::new();
    let mut subscriber = Session::new(1);
    handle(
        &mut db,
        &mut subscriber,
        cmd_frame(&[b"subscribe", b"hello", b"world"]),
        0,
    );
    assert_eq!(subscriber.subscribed_count(), 2);

    handle(&mut db, &mut subscriber, cmd_frame(&[b"unsubscribe"]), 0);
    assert_eq!(subscriber.subscribed_count(), 0);
}

#[test]
fn unsubscribe_all_stops_delivery() {
    let mut db = Db::new();
    let mut subscriber = Session::new(1);
    handle(&mut db, &mut subscriber, cmd_frame(&[b"subscribe", b"a", b"b"]), 0);
    handle(&mut db, &mut subscriber, cmd_frame(&[b"unsubscribe"]), 0);

    let mut publisher = Session::new(2);
    let replies = handle(&mut db, &mut publisher, cmd_frame(&[b"publish", b"a", b"m"]), 0);
    assert_eq!(replies, vec![Frame::Integer(0)]);
    let replies = handle(&mut db, &mut publisher, cmd_frame(&[b"publish", b"b", b"m"]), 0);
    assert_eq!(replies, vec![Frame::Integer(0)]);
    assert!(subscriber.poll_message(&mut db).is_none());
}

#[test]
fn fan_out_two_subscribers() {
    let mut db = Db::new();
    let mut sub1 = Session::new(1);
    let mut sub2 = Session::new(2);
    handle(&mut db, &mut sub1, cmd_frame(&[b"subscribe", b"ch"]), 0);
    handle(&mut db, &mut sub2, cmd_frame(&[b"subscribe", b"ch"]), 0);

    let mut publisher = Session::new(3);
    let replies = handle(&mut db, &mut publisher, cmd_frame(&[b"publish", b"ch", b"msg"]), 0);
    assert_eq!(replies, vec![Frame::Integer(2)]);

    for sub in [&mut sub1, &mut sub2] {
        let m = sub.poll_message(&mut db).unwrap();
        assert_eq!(m, message(b"ch", b"msg"));
        // exactly once
        assert!(sub.poll_message(&mut db).is_none());
    }
}

#[test]
fn hset_command() {
    let mut db = Db::new();
    let mut s = Session::new(1);
    let value = "\u{4f60}\u{597d}\u{4e16}\u{754c}".as_bytes();
    let replies = handle(&mut db, &mut s, cmd_frame(&[b"hset", b"hello", b"world", value]), 0);
    assert_eq!(replies, vec![Frame::Simple(b"OK".to_vec())]);

    let replies = handle(&mut db, &mut s, cmd_frame(&[b"hget", b"hello", b"world"]), 0);
    println!("value {:?}", replies);
    assert_eq!(replies, vec![bulk(value)]);
}

#[test]
fn hgetall_reply_alternates() {
    let mut db = Db::new();
    let mut s = Session::new(1);
    handle(&mut db, &mut s, cmd_frame(&[b"hset", b"h", b"f1", b"a"]), 0);
    handle(&mut db, &mut s, cmd_frame(&[b"hset", b"h", b"f2", b"b"]), 0);
    let replies = handle(&mut db, &mut s, cmd_frame(&[b"hgetall", b"h"]), 0);
    assert_eq!(
        replies,
        vec![Frame::Array(vec![bulk(b"f1"), bulk(b"a"), bulk(b"f2"), bulk(b"b")])]
    );
    let replies = handle(&mut db, &mut s, cmd_frame(&[b"hgetall", b"absent"]), 0);
    assert_eq!(replies, vec![Frame::Null]);
}

#[test]
fn scenario_set_get_expire() {
    // client A writes, client B reads; then A writes with an expiry
    // of zero and after a short wait B reads null
    let mut db = Db::new();
    let mut a = Session::new(1);
    let mut b = Session::new(2);
    let t0: u64 = 5_000;
    handle(&mut db, &mut a, cmd_frame(&[b"set", b"foo", b"bar"]), t0);
    let replies = handle(&mut db, &mut b, cmd_frame(&[b"get", b"foo"]), t0);
    assert_eq!(replies, vec![bulk(b"bar")]);

    handle(&mut db, &mut a, cmd_frame(&[b"set", b"foo", b"bar", b"0"]), t0);
    let replies = handle(&mut db, &mut b, cmd_frame(&[b"get", b"foo"]), t0 + 10);
    assert_eq!(replies, vec![Frame::Null]);
}

#[test]
fn subscription_acks_name_channel_and_count() {
    let mut db = Db::new();
    let mut s = Session::new(1);
    let acks = handle(&mut db, &mut s, cmd_frame(&[b"subscribe", b"a", b"b"]), 0);
    assert_eq!(
        acks,
        vec![
            Frame::Array(vec![bulk(b"subscribe"), bulk(b"a"), Frame::Integer(1)]),
            Frame::Array(vec![bulk(b"subscribe"), bulk(b"b"), Frame::Integer(2)]),
        ]
    );
    let acks = handle(&mut db, &mut s, cmd_frame(&[b"unsubscribe", b"a"]), 0);
    assert_eq!(
        acks,
        vec![Frame::Array(vec![bulk(b"unsubscribe"), bulk(b"a"), Frame::Integer(1)])]
    );
    let acks = handle(&mut db, &mut s, cmd_frame(&[b"unsubscribe"]), 0);
    assert_eq!(
        acks,
        vec![Frame::Array(vec![bulk(b"unsubscribe"), Frame::Integer(0)])]
    );
}
