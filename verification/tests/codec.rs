use my_redis::decode::{check, decode, parse, DecodeOutcome, FrameError};
use my_redis::frame::{encode, encode_decimal, Frame};

fn roundtrip(f: Frame) -> Frame {
    let bytes = encode(&f);
    let consumed = check(&bytes).expect("a full encoding must check");
    assert_eq!(consumed, bytes.len());
    parse(&bytes)
}

#[test]
fn encode_simple_exact_bytes() {
    let f = Frame::Simple(b"OK".to_vec());
    assert_eq!(encode(&f), b"+OK\r\n".to_vec());
}

#[test]
fn encode_error_exact_bytes() {
    let f = Frame::Error(b"ERR unknown".to_vec());
    assert_eq!(encode(&f), b"-ERR unknown\r\n".to_vec());
}

#[test]
fn encode_integer_exact_bytes() {
    assert_eq!(encode(&Frame::Integer(0)), b":0\r\n".to_vec());
    assert_eq!(encode(&Frame::Integer(12345)), b":12345\r\n".to_vec());
    assert_eq!(
        encode(&Frame::Integer(u64::MAX)),
        b":18446744073709551615\r\n".to_vec()
    );
}

#[test]
fn encode_null_exact_bytes() {
    assert_eq!(encode(&Frame::Null), b"$-1\r\n".to_vec());
}

#[test]
fn encode_bulk_exact_bytes() {
    let f = Frame::Bulk(b"hello".to_vec());
    assert_eq!(encode(&f), b"$5\r\nhello\r\n".to_vec());
}

#[test]
fn encode_decimal_exact_bytes() {
    assert_eq!(encode_decimal(0), b"0\r\n".to_vec());
    assert_eq!(encode_decimal(907), b"907\r\n".to_vec());
    assert_eq!(
        encode_decimal(u64::MAX),
        b"18446744073709551615\r\n".to_vec()
    );
}

#[test]
fn roundtrip_simple() {
    let f = Frame::Simple(b"PONG".to_vec());
    assert_eq!(roundtrip(f), Frame::Simple(b"PONG".to_vec()));
}

#[test]
fn roundtrip_empty_simple() {
    assert_eq!(roundtrip(Frame::Simple(Vec::new())), Frame::Simple(Vec::new()));
}

#[test]
fn roundtrip_error() {
    let f = Frame::Error(b"ERR wrong type".to_vec());
    assert_eq!(roundtrip(f), Frame::Error(b"ERR wrong type".to_vec()));
}

#[test]
fn roundtrip_integer() {
    assert_eq!(roundtrip(Frame::Integer(0)), Frame::Integer(0));
    assert_eq!(roundtrip(Frame::Integer(42)), Frame::Integer(42));
    assert_eq!(roundtrip(Frame::Integer(u64::MAX)), Frame::Integer(u64::MAX));
}

#[test]
fn roundtrip_null() {
    assert_eq!(roundtrip(Frame::Null), Frame::Null);
}

#[test]
fn roundtrip_bulk() {
    let f = Frame::Bulk(b"bar".to_vec());
    assert_eq!(roundtrip(f), Frame::Bulk(b"bar".to_vec()));
}

#[test]
fn roundtrip_empty_bulk() {
    assert_eq!(roundtrip(Frame::Bulk(Vec::new())), Frame::Bulk(Vec::new()));
}

#[test]
fn roundtrip_bulk_with_embedded_crlf() {
    let payload = b"a\r\nb\r\nc".to_vec();
    let f = Frame::Bulk(payload.clone());
    let bytes = encode(&f);
    assert_eq!(bytes, b"$7\r\na\r\nb\r\nc\r\n".to_vec());
    assert_eq!(roundtrip(f), Frame::Bulk(payload));
}

#[test]
fn check_incomplete_on_every_strict_prefix() {
    let frames = vec![
        Frame::Simple(b"OK".to_vec()),
        Frame::Error(b"ERR".to_vec()),
        Frame::Integer(907),
        Frame::Null,
        Frame::Bulk(b"a\r\nb".to_vec()),
    ];
    for f in frames {
        let bytes = encode(&f);
        for k in 0..bytes.len() {
            assert_eq!(check(&bytes[..k]), Err(FrameError::Incomplete));
        }
        assert_eq!(check(&bytes), Ok(bytes.len()));
    }
}

#[test]
fn check_protocol_on_unknown_tag() {
    assert_eq!(check(b"?hello\r\n"), Err(FrameError::Protocol));
}

#[test]
fn decode_array_of_bulks() {
    let buf = b"*2\r\n$3\r\nGET\r\n$3\r\nfoo\r\n";
    assert_eq!(check(buf), Ok(buf.len()));
    assert_eq!(
        parse(buf),
        Frame::Array(vec![
            Frame::Bulk(b"GET".to_vec()),
            Frame::Bulk(b"foo".to_vec())
        ])
    );
}

#[test]
fn decode_empty_array() {
    let buf = b"*0\r\n";
    assert_eq!(check(buf), Ok(4));
    assert_eq!(parse(buf), Frame::Array(Vec::new()));
}

#[test]
fn decode_nested_array() {
    let buf = b"*2\r\n*1\r\n+a\r\n:7\r\n";
    assert_eq!(check(buf), Ok(buf.len()));
    assert_eq!(
        parse(buf),
        Frame::Array(vec![
            Frame::Array(vec![Frame::Simple(b"a".to_vec())]),
            Frame::Integer(7),
        ])
    );
}

#[test]
fn check_incomplete_on_every_array_prefix() {
    let buf = b"*2\r\n$3\r\nGET\r\n$3\r\nfoo\r\n";
    for k in 0..buf.len() {
        assert_eq!(check(&buf[..k]), Err(FrameError::Incomplete));
    }
    assert_eq!(check(buf), Ok(buf.len()));
}

#[test]
fn check_protocol_on_bad_array() {
    // A malformed element condemns the whole array.
    assert_eq!(check(b"*1\r\n?x\r\n"), Err(FrameError::Protocol));
    // The element count must be a decimal number.
    assert_eq!(check(b"*x\r\n"), Err(FrameError::Protocol));
    assert_eq!(check(b"*-1\r\n"), Err(FrameError::Protocol));
}

#[test]
fn check_stops_at_first_array_frame() {
    let buf = b"*1\r\n:5\r\n+next\r\n";
    assert_eq!(check(buf), Ok(8));
    assert_eq!(parse(buf), Frame::Array(vec![Frame::Integer(5)]));
}

#[test]
fn check_protocol_on_bare_lf() {
    assert_eq!(check(b"+ab\ncd\r\n"), Err(FrameError::Protocol));
}

#[test]
fn check_protocol_on_cr_without_lf() {
    assert_eq!(check(b"+ab\rcd\r\n"), Err(FrameError::Protocol));
}

#[test]
fn check_protocol_on_bad_integer() {
    assert_eq!(check(b":12a\r\n"), Err(FrameError::Protocol));
    assert_eq!(check(b":\r\n"), Err(FrameError::Protocol));
    // One past u64::MAX does not fit.
    assert_eq!(check(b":18446744073709551616\r\n"), Err(FrameError::Protocol));
}

#[test]
fn check_accepts_leading_zero_integer() {
    let buf = b":007\r\n";
    assert_eq!(check(buf), Ok(buf.len()));
    assert_eq!(parse(buf), Frame::Integer(7));
}

#[test]
fn check_protocol_on_bad_bulk_length() {
    assert_eq!(check(b"$x\r\nab\r\n"), Err(FrameError::Protocol));
    assert_eq!(check(b"$-2\r\n"), Err(FrameError::Protocol));
}

#[test]
fn check_protocol_on_bulk_payload_overrun() {
    // Declared length 3, but the terminator comes too early.
    assert_eq!(check(b"$3\r\nab\r\nXX"), Err(FrameError::Protocol));
}

#[test]
fn check_incomplete_on_bulk_awaiting_payload() {
    assert_eq!(check(b"$5\r\nab"), Err(FrameError::Incomplete));
}

#[test]
fn check_stops_at_first_frame() {
    let buf = b"+one\r\n+two\r\n";
    assert_eq!(check(buf), Ok(6));
    assert_eq!(parse(buf), Frame::Simple(b"one".to_vec()));
}

#[test]
fn decode_reports_frame_and_length() {
    match decode(b":31\r\ntrailing") {
        DecodeOutcome::Found(f, n) => {
            assert_eq!(f, Frame::Integer(31));
            assert_eq!(n, 5);
        }
        other => panic!("expected a frame, got {:?}", other),
    }
}
