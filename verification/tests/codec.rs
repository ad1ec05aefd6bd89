//! Frame codec behavior: byte-exact encodings, round trips, partial
//! delivery, and malformed input.

use mini_redis::frame::{decode, encode, Decoded, Frame};

fn bulk(b: &[u8]) -> Frame {
    Frame::Bulk(b.to_vec())
}

fn roundtrip(f: Frame) {
    let bytes = encode(&f);
    match decode(&bytes) {
        Decoded::Complete(g, used) => {
            assert_eq!(used, bytes.len());
            assert_eq!(g, f);
        },
        other => panic!("expected a complete frame, got {:?}", other),
    }
}

#[test]
fn encodes_simple_string() {
    assert_eq!(encode(&Frame::Simple(b"OK".to_vec())), b"+OK\r\n".to_vec());
}

#[test]
fn encodes_error_string() {
    assert_eq!(
        encode(&Frame::Error(b"ERR oops".to_vec())),
        b"-ERR oops\r\n".to_vec()
    );
}

#[test]
fn encodes_integer() {
    assert_eq!(encode(&Frame::Integer(0)), b":0\r\n".to_vec());
    assert_eq!(encode(&Frame::Integer(12345)), b":12345\r\n".to_vec());
    assert_eq!(
        encode(&Frame::Integer(u64::MAX)),
        b":18446744073709551615\r\n".to_vec()
    );
}

#[test]
fn encodes_bulk_and_null() {
    assert_eq!(encode(&bulk(b"hello")), b"$5\r\nhello\r\n".to_vec());
    assert_eq!(encode(&bulk(b"")), b"$0\r\n\r\n".to_vec());
    assert_eq!(encode(&Frame::Null), b"$-1\r\n".to_vec());
}

#[test]
fn encodes_array() {
    let f = Frame::Array(vec![bulk(b"get"), bulk(b"foo")]);
    assert_eq!(encode(&f), b"*2\r\n$3\r\nget\r\n$3\r\nfoo\r\n".to_vec());
}

#[test]
fn round_trips_every_variant() {
    roundtrip(Frame::Simple(b"PONG".to_vec()));
    roundtrip(Frame::Error(b"ERR unknown command".to_vec()));
    roundtrip(Frame::Integer(42));
    roundtrip(Frame::Integer(u64::MAX));
    roundtrip(bulk(b"binary \x00\x01\xff payload"));
    roundtrip(bulk(b""));
    roundtrip(Frame::Null);
    roundtrip(Frame::Array(vec![]));
    roundtrip(Frame::Array(vec![
        bulk(b"set"),
        bulk(b"key"),
        bulk(b"value"),
        Frame::Integer(100),
    ]));
    roundtrip(Frame::Array(vec![
        Frame::Array(vec![bulk(b"nested"), Frame::Null]),
        Frame::Simple(b"outer".to_vec()),
    ]));
}

#[test]
fn partial_delivery_every_boundary() {
    let frames = vec![
        Frame::Simple(b"OK".to_vec()),
        Frame::Integer(907),
        bulk(b"hello world"),
        Frame::Null,
        Frame::Array(vec![bulk(b"message"), bulk(b"ch"), bulk(b"payload")]),
    ];
    for f in frames {
        let bytes = encode(&f);
        for i in 0..bytes.len() {
            let prefix = bytes[..i].to_vec();
            assert_eq!(
                decode(&prefix),
                Decoded::Incomplete,
                "prefix of length {} of {:?}",
                i,
                bytes
            );
        }
        match decode(&bytes) {
            Decoded::Complete(g, used) => {
                assert_eq!(used, bytes.len());
                assert_eq!(g, f);
            },
            other => panic!("expected a complete frame, got {:?}", other),
        }
    }
}

#[test]
fn decode_leaves_trailing_bytes() {
    let mut bytes = encode(&Frame::Integer(7));
    bytes.extend_from_slice(b"+OK\r\n");
    match decode(&bytes) {
        Decoded::Complete(g, used) => {
            assert_eq!(g, Frame::Integer(7));
            assert_eq!(used, 4);
        },
        other => panic!("unexpected {:?}", other),
    }
}

#[test]
fn decode_rejects_unknown_marker() {
    assert_eq!(decode(&b"!oops\r\n".to_vec()), Decoded::Malformed);
}

#[test]
fn decode_rejects_bad_numbers() {
    assert_eq!(decode(&b":12a\r\n".to_vec()), Decoded::Malformed);
    assert_eq!(decode(&b":\r\n".to_vec()), Decoded::Malformed);
    assert_eq!(decode(&b"$x\r\n".to_vec()), Decoded::Malformed);
    assert_eq!(decode(&b"$-2\r\n".to_vec()), Decoded::Malformed);
    assert_eq!(decode(&b"*-2\r\n".to_vec()), Decoded::Malformed);
    // one past the largest representable integer
    assert_eq!(decode(&b":18446744073709551616\r\n".to_vec()), Decoded::Malformed);
}

#[test]
fn decode_rejects_missing_bulk_terminator() {
    assert_eq!(decode(&b"$2\r\nabXY".to_vec()), Decoded::Malformed);
}

#[test]
fn decode_accepts_null_array_form() {
    match decode(&b"*-1\r\n".to_vec()) {
        Decoded::Complete(Frame::Null, 5) => {},
        other => panic!("unexpected {:?}", other),
    }
}

#[test]
fn decode_needs_more_on_empty() {
    assert_eq!(decode(&Vec::new()), Decoded::Incomplete);
}
