use bytes::BytesMut;
use resp_codec::reply::Reply;

fn decode(s: &[u8]) -> Reply {
    Reply::decode(s)
}

#[test]
fn nested_array_keeps_structure() {
    let r = decode(b"*2\r\n:1\r\n*1\r\n+OK\r\n");
    assert_eq!(
        r,
        Reply::Array(vec![
            Reply::Integer(1),
            Reply::Array(vec![Reply::SingleLine("OK".to_string())]),
        ])
    );
}

#[test]
fn null_bulk_string() {
    assert_eq!(decode(b"$-1\r\n"), Reply::BulkString(None));
}

#[test]
fn empty_bulk_string() {
    assert_eq!(decode(b"$0\r\n\r\n"), Reply::BulkString(Some(String::new())));
}

#[test]
fn bulk_payload_may_hold_terminator() {
    assert_eq!(
        decode(b"$5\r\nab\r\nc\r\n"),
        Reply::BulkString(Some("ab\r\nc".to_string()))
    );
}

#[test]
fn error_reply_is_not_malformed() {
    assert_eq!(
        decode(b"-ERR wrong type\r\n"),
        Reply::Error("ERR wrong type".to_string())
    );
    assert_eq!(decode(b"?what\r\n"), Reply::Malformed);
}

#[test]
fn simple_string() {
    assert_eq!(decode(b"+PONG\r\n"), Reply::SingleLine("PONG".to_string()));
}

#[test]
fn integers_are_signed_64_bit() {
    assert_eq!(decode(b":42\r\n"), Reply::Integer(42));
    assert_eq!(decode(b":-7\r\n"), Reply::Integer(-7));
    assert_eq!(decode(b":9223372036854775807\r\n"), Reply::Integer(i64::MAX));
    assert_eq!(decode(b":-9223372036854775808\r\n"), Reply::Integer(i64::MIN));
    assert_eq!(decode(b":9223372036854775808\r\n"), Reply::Malformed);
    assert_eq!(decode(b":99999999999999999999999\r\n"), Reply::Malformed);
}

#[test]
fn malformed_inputs() {
    assert_eq!(decode(b""), Reply::Malformed);
    assert_eq!(decode(b"+OK"), Reply::Malformed);
    assert_eq!(decode(b"+OK\n"), Reply::Malformed);
    assert_eq!(decode(b":12a\r\n"), Reply::Malformed);
    assert_eq!(decode(b":\r\n"), Reply::Malformed);
    assert_eq!(decode(b":-\r\n"), Reply::Malformed);
    assert_eq!(decode(b"$-2\r\n"), Reply::Malformed);
    assert_eq!(decode(b"$5\r\nabc\r\n"), Reply::Malformed);
    assert_eq!(decode(b"$3\r\nabcde"), Reply::Malformed);
    assert_eq!(decode(b"*2\r\n:1\r\n"), Reply::Malformed);
    assert_eq!(decode(b"*-1\r\n"), Reply::Malformed);
    assert_eq!(decode(b"*x\r\n"), Reply::Malformed);
}

#[test]
fn bulk_payload_must_be_text() {
    assert_eq!(decode(b"$2\r\n\xff\xfe\r\n"), Reply::Malformed);
    assert_eq!(
        decode("$2\r\n\u{e9}\r\n".as_bytes()),
        Reply::BulkString(Some("\u{e9}".to_string()))
    );
}

#[test]
fn empty_array() {
    assert_eq!(decode(b"*0\r\n"), Reply::Array(vec![]));
}

#[test]
fn array_of_mixed_replies() {
    assert_eq!(
        decode(b"*4\r\n$3\r\nfoo\r\n$-1\r\n-ERR x\r\n:5\r\n"),
        Reply::Array(vec![
            Reply::BulkString(Some("foo".to_string())),
            Reply::BulkString(None),
            Reply::Error("ERR x".to_string()),
            Reply::Integer(5),
        ])
    );
}

#[test]
fn bytes_after_the_frame_are_ignored() {
    assert_eq!(decode(b"+OK\r\n+NEXT\r\n"), Reply::SingleLine("OK".to_string()));
}

#[test]
fn truncated_frames_are_malformed() {
    let full: &[u8] = b"*2\r\n$3\r\nfoo\r\n:10\r\n";
    for cut in 0..full.len() {
        assert_eq!(decode(&full[..cut]), Reply::Malformed, "cut at {}", cut);
    }
    assert_eq!(
        decode(full),
        Reply::Array(vec![Reply::BulkString(Some("foo".to_string())), Reply::Integer(10)])
    );
}

#[test]
fn deep_nesting_is_bounded() {
    let mut deep = Vec::new();
    for _ in 0..(resp_codec::reply::MAX_NESTING + 1) {
        deep.extend_from_slice(b"*1\r\n");
    }
    deep.extend_from_slice(b":1\r\n");
    assert_eq!(decode(&deep), Reply::Malformed);

    let mut ok = Vec::new();
    for _ in 0..resp_codec::reply::MAX_NESTING {
        ok.extend_from_slice(b"*1\r\n");
    }
    ok.extend_from_slice(b":1\r\n");
    assert!(matches!(decode(&ok), Reply::Array(_)));
}

#[test]
fn from_resp_reads_the_buffer() {
    let buf = BytesMut::from(&b"$3\r\nbar\r\n"[..]);
    assert_eq!(Reply::from_resp(&buf), Reply::BulkString(Some("bar".to_string())));
}
