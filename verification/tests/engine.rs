use my_redis::engine::{EofOutcome, FrameBuffer, ReadOutcome};
use my_redis::frame::{encode, Frame};

fn expect_frame(r: ReadOutcome) -> Frame {
    match r {
        ReadOutcome::Frame(f) => f,
        ReadOutcome::NeedMore => panic!("engine asked for more input"),
        ReadOutcome::Corrupt => panic!("engine reported corruption"),
    }
}

#[test]
fn whole_delivery_yields_frame() {
    let f = Frame::Bulk(b"bar".to_vec());
    let mut conn = FrameBuffer::new();
    conn.feed(&encode(&f));
    assert_eq!(expect_frame(conn.try_read_frame()), f);
    assert_eq!(conn.len(), 0);
}

#[test]
fn chunked_delivery_yields_same_frame() {
    // The incremental feed invariant on concrete data: however the encoding
    // is split across reads, the engine yields exactly the frame that a
    // single whole read yields.
    let f = Frame::Bulk(b"a\r\nb".to_vec());
    let bytes = encode(&f);
    for split in 1..bytes.len() {
        let mut conn = FrameBuffer::new();
        conn.feed(&bytes[..split]);
        assert!(matches!(conn.try_read_frame(), ReadOutcome::NeedMore));
        conn.feed(&bytes[split..]);
        assert_eq!(expect_frame(conn.try_read_frame()), Frame::Bulk(b"a\r\nb".to_vec()));
        assert_eq!(conn.len(), 0);
    }
}

#[test]
fn byte_by_byte_delivery_yields_same_frame() {
    let f = Frame::Integer(4096);
    let bytes = encode(&f);
    let mut conn = FrameBuffer::new();
    for (i, b) in bytes.iter().enumerate() {
        if i + 1 < bytes.len() {
            conn.feed(&[*b]);
            assert!(matches!(conn.try_read_frame(), ReadOutcome::NeedMore));
        } else {
            conn.feed(&[*b]);
        }
    }
    assert_eq!(expect_frame(conn.try_read_frame()), f);
}

#[test]
fn chunked_array_request_yields_frame() {
    // A wire request (an array of bulk strings) delivered in two chunks at
    // every split point decodes to the same frame as a single whole read.
    let bytes = b"*2\r\n$3\r\nGET\r\n$3\r\nfoo\r\n";
    let expected = Frame::Array(vec![
        Frame::Bulk(b"GET".to_vec()),
        Frame::Bulk(b"foo".to_vec()),
    ]);
    for split in 1..bytes.len() {
        let mut conn = FrameBuffer::new();
        conn.feed(&bytes[..split]);
        assert!(matches!(conn.try_read_frame(), ReadOutcome::NeedMore));
        conn.feed(&bytes[split..]);
        assert_eq!(expect_frame(conn.try_read_frame()), expected);
        assert_eq!(conn.len(), 0);
    }
}

#[test]
fn partial_frame_then_eof_is_reset() {
    // Exactly the first k bytes of a valid encoding, then end-of-file:
    // a reset, never a clean close.
    let bytes = encode(&Frame::Simple(b"PING".to_vec()));
    for k in 1..bytes.len() {
        let mut conn = FrameBuffer::new();
        conn.feed(&bytes[..k]);
        assert!(matches!(conn.try_read_frame(), ReadOutcome::NeedMore));
        assert_eq!(conn.on_eof(), EofOutcome::Reset);
    }
}

#[test]
fn immediate_eof_is_clean_close() {
    // Zero bytes ever delivered: end-of-file means "no frame", not an error.
    let conn = FrameBuffer::new();
    assert_eq!(conn.on_eof(), EofOutcome::CleanClose);
}

#[test]
fn eof_after_whole_frame_consumed_is_clean_close() {
    let mut conn = FrameBuffer::new();
    conn.feed(&encode(&Frame::Null));
    let _ = expect_frame(conn.try_read_frame());
    assert_eq!(conn.on_eof(), EofOutcome::CleanClose);
}

#[test]
fn corrupt_input_is_reported() {
    let mut conn = FrameBuffer::new();
    conn.feed(b"?what\r\n");
    assert!(matches!(conn.try_read_frame(), ReadOutcome::Corrupt));
}

#[test]
fn two_frames_back_to_back() {
    let first = Frame::Simple(b"one".to_vec());
    let second = Frame::Bulk(b"two".to_vec());
    let mut conn = FrameBuffer::new();
    let mut bytes = encode(&first);
    bytes.extend_from_slice(&encode(&second));
    conn.feed(&bytes);
    assert_eq!(expect_frame(conn.try_read_frame()), first);
    assert_eq!(expect_frame(conn.try_read_frame()), second);
    assert!(matches!(conn.try_read_frame(), ReadOutcome::NeedMore));
    assert_eq!(conn.on_eof(), EofOutcome::CleanClose);
}
