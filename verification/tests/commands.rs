use my_redis::command::{apply, from_frame, Command, CommandError};
use my_redis::decode::{check, parse};
use my_redis::frame::{encode, Frame};
use my_redis::store::Store;

fn get_request(key: &[u8]) -> Frame {
    Frame::Array(vec![Frame::Bulk(b"GET".to_vec()), Frame::Bulk(key.to_vec())])
}

fn set_request(key: &[u8], value: &[u8]) -> Frame {
    Frame::Array(vec![
        Frame::Bulk(b"SET".to_vec()),
        Frame::Bulk(key.to_vec()),
        Frame::Bulk(value.to_vec()),
    ])
}

#[test]
fn from_frame_decodes_get() {
    let cmd = from_frame(get_request(b"foo")).expect("GET must decode");
    assert_eq!(cmd, Command::Get { key: b"foo".to_vec() });
}

#[test]
fn from_frame_decodes_set() {
    let cmd = from_frame(set_request(b"foo", b"bar")).expect("SET must decode");
    assert_eq!(
        cmd,
        Command::Put { key: b"foo".to_vec(), value: b"bar".to_vec() }
    );
}

#[test]
fn from_frame_rejects_unknown_name() {
    let frame = Frame::Array(vec![
        Frame::Bulk(b"DEL".to_vec()),
        Frame::Bulk(b"foo".to_vec()),
    ]);
    assert_eq!(from_frame(frame), Err(CommandError::Unsupported));
}

#[test]
fn from_frame_rejects_wrong_case() {
    let frame = Frame::Array(vec![
        Frame::Bulk(b"get".to_vec()),
        Frame::Bulk(b"foo".to_vec()),
    ]);
    assert_eq!(from_frame(frame), Err(CommandError::Unsupported));
}

#[test]
fn from_frame_rejects_wrong_arity() {
    let just_name = Frame::Array(vec![Frame::Bulk(b"GET".to_vec())]);
    assert_eq!(from_frame(just_name), Err(CommandError::Unsupported));
    let too_many = Frame::Array(vec![
        Frame::Bulk(b"GET".to_vec()),
        Frame::Bulk(b"a".to_vec()),
        Frame::Bulk(b"b".to_vec()),
        Frame::Bulk(b"c".to_vec()),
    ]);
    assert_eq!(from_frame(too_many), Err(CommandError::Unsupported));
}

#[test]
fn from_frame_rejects_non_bulk_items() {
    let frame = Frame::Array(vec![Frame::Simple(b"GET".to_vec()), Frame::Null]);
    assert_eq!(from_frame(frame), Err(CommandError::Unsupported));
}

#[test]
fn from_frame_rejects_non_array() {
    assert_eq!(from_frame(Frame::Null), Err(CommandError::Unsupported));
    assert_eq!(
        from_frame(Frame::Simple(b"GET foo".to_vec())),
        Err(CommandError::Unsupported)
    );
}

#[test]
fn set_then_get_scenario() {
    // SET foo bar, then GET foo: Simple("OK"), then Bulk(b"bar").
    let mut store = Store::new(5);
    let set_cmd = from_frame(set_request(b"foo", b"bar")).unwrap();
    let first = apply(&mut store, set_cmd);
    assert_eq!(first, Frame::Simple(b"OK".to_vec()));
    let get_cmd = from_frame(get_request(b"foo")).unwrap();
    let second = apply(&mut store, get_cmd);
    assert_eq!(second, Frame::Bulk(b"bar".to_vec()));
}

#[test]
fn get_missing_scenario() {
    // GET missing on an empty store: Null.
    let mut store = Store::new(5);
    let cmd = from_frame(get_request(b"missing")).unwrap();
    assert_eq!(apply(&mut store, cmd), Frame::Null);
}

#[test]
fn requests_arrive_over_the_wire() {
    // The request path end to end: raw bytes in, decoded array frame,
    // command, store effect, response frame.
    let mut store = Store::new(5);

    let set_bytes = b"*3\r\n$3\r\nSET\r\n$3\r\nfoo\r\n$3\r\nbar\r\n";
    assert_eq!(check(set_bytes), Ok(set_bytes.len()));
    let set_cmd = from_frame(parse(set_bytes)).expect("SET over the wire must decode");
    assert_eq!(apply(&mut store, set_cmd), Frame::Simple(b"OK".to_vec()));

    let get_bytes = b"*2\r\n$3\r\nGET\r\n$3\r\nfoo\r\n";
    assert_eq!(check(get_bytes), Ok(get_bytes.len()));
    let get_cmd = from_frame(parse(get_bytes)).expect("GET over the wire must decode");
    assert_eq!(apply(&mut store, get_cmd), Frame::Bulk(b"bar".to_vec()));
}

#[test]
fn responses_travel_the_wire() {
    // The response frames a server produces go back through the codec
    // unchanged, ending with the exact bytes the peer reads.
    let mut store = Store::new(5);
    let ok = apply(&mut store, from_frame(set_request(b"foo", b"bar")).unwrap());
    let ok_bytes = encode(&ok);
    assert_eq!(ok_bytes, b"+OK\r\n".to_vec());
    assert_eq!(check(&ok_bytes), Ok(ok_bytes.len()));
    assert_eq!(parse(&ok_bytes), Frame::Simple(b"OK".to_vec()));

    let value = apply(&mut store, from_frame(get_request(b"foo")).unwrap());
    let value_bytes = encode(&value);
    assert_eq!(value_bytes, b"$3\r\nbar\r\n".to_vec());
    assert_eq!(parse(&value_bytes), Frame::Bulk(b"bar".to_vec()));

    let missing = apply(&mut store, from_frame(get_request(b"nope")).unwrap());
    assert_eq!(encode(&missing), b"$-1\r\n".to_vec());
}
