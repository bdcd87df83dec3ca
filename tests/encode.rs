use resp_codec::command::{Commands, ExistOP};
use resp_codec::reply::Reply;

fn set(ex: Option<u32>, px: Option<u32>, nx: bool, xx: bool) -> Commands {
    Commands::SetKey { key: "k".to_string(), value: "v".to_string(), ex, px, nx, xx }
}

#[test]
fn get_frame() {
    let c = Commands::Get { key: "foo".to_string() };
    assert_eq!(c.encode(), b"*2\r\n$3\r\nGET\r\n$3\r\nfoo\r\n".to_vec());
}

#[test]
fn ping_frame() {
    assert_eq!(Commands::Ping.encode(), b"*1\r\n$4\r\nPING\r\n".to_vec());
}

#[test]
fn set_with_ex_and_xx() {
    assert_eq!(
        set(Some(10), None, false, true).encode(),
        b"*6\r\n$3\r\nSET\r\n$1\r\nk\r\n$1\r\nv\r\n$2\r\nEX\r\n$2\r\n10\r\n$2\r\nXX\r\n".to_vec()
    );
}

#[test]
fn set_without_options() {
    assert_eq!(
        set(None, None, false, false).encode(),
        b"*3\r\n$3\r\nSET\r\n$1\r\nk\r\n$1\r\nv\r\n".to_vec()
    );
}

#[test]
fn set_with_px_and_nx() {
    assert_eq!(
        set(None, Some(1500), true, false).encode(),
        b"*6\r\n$3\r\nSET\r\n$1\r\nk\r\n$1\r\nv\r\n$2\r\nPX\r\n$4\r\n1500\r\n$2\r\nNX\r\n".to_vec()
    );
}

#[test]
fn set_with_every_option() {
    assert_eq!(
        set(Some(0), Some(7), true, true).encode(),
        b"*9\r\n$3\r\nSET\r\n$1\r\nk\r\n$1\r\nv\r\n$2\r\nEX\r\n$1\r\n0\r\n$2\r\nPX\r\n$1\r\n7\r\n$2\r\nNX\r\n$2\r\nXX\r\n".to_vec()
    );
}

#[test]
fn incr_frame() {
    let c = Commands::Incr { key: "counter".to_string() };
    assert_eq!(c.encode(), b"*2\r\n$4\r\nINCR\r\n$7\r\ncounter\r\n".to_vec());
}

#[test]
fn lrange_with_negative_stop() {
    let c = Commands::Lrange { key: "list".to_string(), start: 0, stop: -1 };
    assert_eq!(
        c.encode(),
        b"*4\r\n$6\r\nLRANGE\r\n$4\r\nlist\r\n$1\r\n0\r\n$2\r\n-1\r\n".to_vec()
    );
}

#[test]
fn lrange_with_extreme_positions() {
    let c = Commands::Lrange { key: "l".to_string(), start: i64::MIN, stop: i64::MAX };
    assert_eq!(
        c.encode(),
        b"*4\r\n$6\r\nLRANGE\r\n$1\r\nl\r\n$20\r\n-9223372036854775808\r\n$19\r\n9223372036854775807\r\n"
            .to_vec()
    );
}

#[test]
fn lengths_count_bytes_not_characters() {
    let c = Commands::Get { key: "\u{e9}t\u{e9}".to_string() };
    let mut expected = b"*2\r\n$3\r\nGET\r\n$5\r\n".to_vec();
    expected.extend_from_slice("\u{e9}t\u{e9}".as_bytes());
    expected.extend_from_slice(b"\r\n");
    assert_eq!(c.encode(), expected);
}

#[test]
fn to_bytes_matches_encode() {
    let c = set(Some(10), None, false, true);
    assert_eq!(&c.to_bytes()[..], &c.encode()[..]);
}

#[test]
fn encoded_commands_decode_as_bulk_arrays() {
    let cases = vec![
        (Commands::Ping, vec!["PING"]),
        (Commands::Get { key: "foo".to_string() }, vec!["GET", "foo"]),
        (set(Some(10), Some(20), true, true), vec!["SET", "k", "v", "EX", "10", "PX", "20", "NX", "XX"]),
        (
            Commands::Lrange { key: "a\r\nb".to_string(), start: -3, stop: 12 },
            vec!["LRANGE", "a\r\nb", "-3", "12"],
        ),
    ];
    for (c, args) in cases {
        let expected = Reply::Array(
            args.iter().map(|a| Reply::BulkString(Some(a.to_string()))).collect(),
        );
        assert_eq!(Reply::decode(&c.encode()), expected);
    }
}

#[test]
fn exist_op_parses_in_any_case() {
    assert_eq!(ExistOP::parse("nx"), Ok(ExistOP::NX));
    assert_eq!(ExistOP::parse("NX"), Ok(ExistOP::NX));
    assert_eq!(ExistOP::parse("xX"), Ok(ExistOP::XX));
    assert!(ExistOP::parse("ex").is_err());
    assert!(ExistOP::parse("nxx").is_err());
    assert!(ExistOP::parse("").is_err());
    assert_eq!("XX".parse::<ExistOP>(), Ok(ExistOP::XX));
}
