//! Command parsing and dispatch: the argument parser's two-phase
//! contract, the verb table, and the connection state machine.

use mini_redis::cmd::hget::HGet;
use mini_redis::cmd::hgetall::HGetAll;
use mini_redis::cmd::hset::HSet;
use mini_redis::cmd::Command;
use mini_redis::db::Db;
use mini_redis::dispatch::Session;
use mini_redis::frame::Frame;
use mini_redis::parse::{Parse, ParseError};

fn bulk(b: &[u8]) -> Frame {
    Frame::Bulk(b.to_vec())
}

fn cmd_frame(parts: &[&[u8]]) -> Frame {
    Frame::Array(parts.iter().map(|p| bulk(p)).collect())
}

#[test]
fn parse_two_phase_contract() {
    let mut p = Parse::new(cmd_frame(&[b"a", b"b"])).unwrap();
    assert_eq!(p.next_string().unwrap(), b"a".to_vec());
    assert!(p.finish().is_err());
    assert_eq!(p.next_bytes().unwrap(), b"b".to_vec());
    assert!(p.finish().is_ok());
    assert_eq!(p.next_string().unwrap_err(), ParseError::EndOfStream);
}

#[test]
fn parse_wrong_shape() {
    let mut p = Parse::new(Frame::Array(vec![Frame::Integer(3)])).unwrap();
    assert_eq!(p.next_string().unwrap_err(), ParseError::WrongType);
    match Parse::new(Frame::Null) {
        Err(e) => assert_eq!(e, ParseError::NotArray),
        Ok(_) => panic!("a non-array frame must be rejected"),
    }
}

#[test]
fn parse_int_shapes() {
    let mut p = Parse::new(Frame::Array(vec![
        Frame::Integer(7),
        bulk(b"42"),
        Frame::Simple(b"9".to_vec()),
        bulk(b"4x"),
    ]))
    .unwrap();
    assert_eq!(p.next_int().unwrap(), 7);
    assert_eq!(p.next_int().unwrap(), 42);
    assert_eq!(p.next_int().unwrap(), 9);
    assert_eq!(p.next_int().unwrap_err(), ParseError::WrongType);
}

#[test]
fn from_frame_verbs_case_insensitive() {
    match Command::from_frame(cmd_frame(&[b"GeT", b"foo"])).unwrap() {
        Command::Get(g) => assert_eq!(g.key(), &b"foo".to_vec()),
        other => panic!("wrong command {:?}", names_only(&other)),
    }
    match Command::from_frame(cmd_frame(&[b"PING"])).unwrap() {
        Command::Ping(_) => {},
        other => panic!("wrong command {:?}", names_only(&other)),
    }
}

fn names_only(c: &Command) -> &'static str {
    match c {
        Command::Ping(_) => "ping",
        Command::Get(_) => "get",
        Command::SetCmd(_) => "set",
        Command::Publish(_) => "publish",
        Command::Subscribe(_) => "subscribe",
        Command::Unsubscribe(_) => "unsubscribe",
        Command::HSet(_) => "hset",
        Command::HGet(_) => "hget",
        Command::HGetAll(_) => "hgetall",
        Command::Unknown(_) => "unknown",
    }
}

#[test]
fn from_frame_arity_errors() {
    assert!(Command::from_frame(cmd_frame(&[b"get"])).is_err());
    assert!(Command::from_frame(cmd_frame(&[b"get", b"a", b"b"])).is_err());
    assert!(Command::from_frame(cmd_frame(&[b"subscribe"])).is_err());
    assert!(Command::from_frame(Frame::Integer(1)).is_err());
}

#[test]
fn from_frame_unknown_verb() {
    match Command::from_frame(cmd_frame(&[b"FLUSHALL"])).unwrap() {
        Command::Unknown(name) => assert_eq!(name, b"flushall".to_vec()),
        other => panic!("wrong command {:?}", names_only(&other)),
    }
}

#[test]
fn hget_parse_and_accessors() {
    let mut p = Parse::new(cmd_frame(&[b"k", b"f"])).unwrap();
    let hg = HGet::parse_frames(&mut p).unwrap();
    assert_eq!(hg.get_key(), &b"k".to_vec());
    assert_eq!(hg.get_field(), &b"f".to_vec());
    let built = HGet::new(b"k".to_vec(), b"f".to_vec());
    assert_eq!(
        mini_redis::frame::encode(&built.into_frame()),
        b"*3\r\n$4\r\nhget\r\n$1\r\nk\r\n$1\r\nf\r\n".to_vec()
    );
}

#[test]
fn hgetall_and_hset_wire_shapes() {
    let hs = HSet::new(b"k".to_vec(), b"f".to_vec(), b"v".to_vec());
    assert_eq!(hs.key(), &b"k".to_vec());
    assert_eq!(hs.field(), &b"f".to_vec());
    assert_eq!(hs.value(), &b"v".to_vec());
    assert_eq!(
        mini_redis::frame::encode(&hs.into_frame()),
        b"*4\r\n$4\r\nhset\r\n$1\r\nk\r\n$1\r\nf\r\n$1\r\nv\r\n".to_vec()
    );
    let ha = HGetAll::new(b"k".to_vec());
    assert_eq!(ha.get_key(), &b"k".to_vec());
    assert_eq!(
        mini_redis::frame::encode(&ha.into_frame()),
        b"*2\r\n$7\r\nhgetall\r\n$1\r\nk\r\n".to_vec()
    );
}

fn one_reply(db: &mut Db, session: &mut Session, frame: Frame) -> Frame {
    let mut replies = mini_redis::dispatch::handle(db, session, frame, 0);
    assert_eq!(replies.len(), 1);
    replies.pop().unwrap()
}

#[test]
fn dispatch_set_get_ok() {
    let mut db = Db::new();
    let mut s = Session::new(1);
    let r = one_reply(&mut db, &mut s, cmd_frame(&[b"set", b"foo", b"bar"]));
    assert_eq!(r, Frame::Simple(b"OK".to_vec()));
    let r = one_reply(&mut db, &mut s, cmd_frame(&[b"get", b"foo"]));
    assert_eq!(r, Frame::Bulk(b"bar".to_vec()));
    let r = one_reply(&mut db, &mut s, cmd_frame(&[b"get", b"nope"]));
    assert_eq!(r, Frame::Null);
}

#[test]
fn dispatch_rejects_while_subscribed() {
    let mut db = Db::new();
    let mut s = Session::new(1);
    let acks = mini_redis::dispatch::handle(&mut db, &mut s, cmd_frame(&[b"subscribe", b"ch"]), 0);
    assert_eq!(acks.len(), 1);
    let r = one_reply(&mut db, &mut s, cmd_frame(&[b"get", b"foo"]));
    assert!(matches!(r, Frame::Error(_)));
    // subscription commands still work
    let acks = mini_redis::dispatch::handle(&mut db, &mut s, cmd_frame(&[b"unsubscribe"]), 0);
    assert_eq!(acks.len(), 1);
    // back to idle
    let r = one_reply(&mut db, &mut s, cmd_frame(&[b"ping"]));
    assert_eq!(r, Frame::Simple(b"PONG".to_vec()));
}

#[test]
fn dispatch_malformed_is_one_error() {
    let mut db = Db::new();
    let mut s = Session::new(1);
    let r = one_reply(&mut db, &mut s, cmd_frame(&[b"set", b"onlykey"]));
    assert!(matches!(r, Frame::Error(_)));
    let r = one_reply(&mut db, &mut s, Frame::Simple(b"hi".to_vec()));
    assert!(matches!(r, Frame::Error(_)));
}

#[test]
fn set_with_expiry_argument() {
    let mut db = Db::new();
    let mut s = Session::new(1);
    let r = mini_redis::dispatch::handle(
        &mut db,
        &mut s,
        cmd_frame(&[b"set", b"k", b"v", b"50"]),
        1_000,
    );
    assert_eq!(r.len(), 1);
    assert_eq!(db.get(&b"k".to_vec(), 1_040), Some(b"v".to_vec()));
    assert_eq!(db.get(&b"k".to_vec(), 1_050), None);
}

#[test]
fn duration_from_ms_str_parses_decimal() {
    assert_eq!(mini_redis::util::duration_from_ms_str("50"), Ok(50));
    assert_eq!(mini_redis::util::duration_from_ms_str("0"), Ok(0));
    assert!(mini_redis::util::duration_from_ms_str("").is_err());
    assert!(mini_redis::util::duration_from_ms_str("5x").is_err());
    assert!(mini_redis::util::duration_from_ms_str("18446744073709551616").is_err());
}

#[test]
fn stream_command_wire_shapes() {
    let xa = mini_redis::cmd::stream_producer::XAdd::new(
        "race".to_string(),
        vec!["rider".to_string(), "Castilla".to_string()],
    );
    assert_eq!(xa.stream(), "race");
    assert_eq!(
        mini_redis::frame::encode(&xa.into_frame()),
        b"*4\r\n$4\r\nxadd\r\n$4\r\nrace\r\n$5\r\nrider\r\n$8\r\nCastilla\r\n".to_vec()
    );

    let xr = mini_redis::cmd::stream_producer::XRead::new(
        "s".to_string(),
        "e".to_string(),
        b"v".to_vec(),
    );
    assert_eq!(xr.stream(), "s");
    assert_eq!(xr.entry(), "e");
    assert_eq!(xr.value(), &b"v".to_vec());
    assert_eq!(
        mini_redis::frame::encode(&xr.into_frame()),
        b"*4\r\n$5\r\nxread\r\n$1\r\ns\r\n$1\r\ne\r\n$1\r\nv\r\n".to_vec()
    );

    let xg = mini_redis::cmd::stream_producer::XRange::new(
        "s".to_string(),
        "a".to_string(),
        b"b".to_vec(),
    );
    assert_eq!(
        mini_redis::frame::encode(&xg.into_frame()),
        b"*4\r\n$6\r\nxrange\r\n$1\r\ns\r\n$1\r\na\r\n$1\r\nb\r\n".to_vec()
    );
}

#[test]
fn stream_types_hold_entries() {
    let mut stream = mini_redis::stream_consumer::Stream::new("race".to_string());
    let mut entry = mini_redis::stream_consumer::StreamEntry::new();
    entry.set_field("rider", "Castilla");
    entry.set_field("rider", "Roberto");
    entry.set_field("speed", "30");
    let mut entries = std::collections::VecDeque::new();
    entries.push_back(entry);
    stream.set_name_and_entries("race:france".to_string(), entries);

    let mut engine_stream = mini_redis::streams::Stream::new("race".to_string());
    assert!(engine_stream.xadd(vec![("rider".to_string(), "Castilla".to_string())]).is_ok());
    assert!(engine_stream.xread("0").is_ok());
    assert!(engine_stream.xrange("0", "9").is_ok());
}

#[test]
fn parse_errors_are_distinct() {
    // a missing argument is the end-of-stream condition
    let mut p = Parse::new(cmd_frame(&[b"k"])).unwrap();
    p.next_string().unwrap();
    match HGet::parse_frames(&mut p) {
        Err(e) => assert_eq!(e, ParseError::EndOfStream),
        Ok(_) => panic!("two arguments were required"),
    }
    // a mis-shaped argument is the wrong-type error
    let mut p = Parse::new(Frame::Array(vec![Frame::Integer(9), bulk(b"f")])).unwrap();
    match HGet::parse_frames(&mut p) {
        Err(e) => assert_eq!(e, ParseError::WrongType),
        Ok(_) => panic!("an integer cannot name a key"),
    }
    // a trailing argument is the arity error
    match Command::from_frame(cmd_frame(&[b"get", b"a", b"b"])) {
        Err(e) => assert_eq!(e, ParseError::Trailing),
        Ok(_) => panic!("one argument was expected"),
    }
    match Command::from_frame(cmd_frame(&[b"subscribe"])) {
        Err(e) => assert_eq!(e, ParseError::EndOfStream),
        Ok(_) => panic!("a channel was required"),
    }
}
