use bytes::BytesMut;
use resp_kv::command::Arguments;
use resp_kv::commands::{parse_command, Cmd, ParseError};
use resp_kv::redis_value::{Node, Value as FrameValue};
use resp_kv::resp::{ProtocolError, RespProtocol, SimpleBytes};
use resp_kv::value::{count_digits, Value};

#[test]
fn test_simple_bytes() {
    let bytes_ok = "asfasfasf".as_bytes();
    let simple_bytes = SimpleBytes::from_bytes(bytes_ok.to_vec());
    let bytes_err_1 = "asdfaf\r".as_bytes();
    let bytes_err_2 = "asd\nfaf".as_bytes();
    let bytes_err_3 = "asdfa\r\n".as_bytes();

    assert!(matches!(simple_bytes, Ok(_)));
    assert!(matches!(
        SimpleBytes::from_bytes(bytes_err_1.to_vec()),
        Err(ProtocolError::BadBytes)
    ));
    assert!(matches!(
        SimpleBytes::from_bytes(bytes_err_2.to_vec()),
        Err(ProtocolError::BadBytes)
    ));
    assert!(matches!(
        SimpleBytes::from_bytes(bytes_err_3.to_vec()),
        Err(ProtocolError::BadBytes)
    ));
}

#[test]
fn test_encode() {
    let values = Value::Array(vec![
        Value::Okay,
        Value::Okay,
        Value::Array(vec![Value::Nil]),
        Value::Int(32),
        Value::Array(vec![]),
    ]);
    let bulk_string = Value::Data(b"hello world!".to_vec());

    let value = Value::Array(vec![
        bulk_string,
        values,
        Value::Status("err".to_string()),
        Value::Nil,
    ]);

    let mut buf = BytesMut::with_capacity(value.encoding_len());

    let expected = b"*4\r\n$12\r\nhello world!\r\n*5\r\n+Ok\r\n+Ok\r\n*1\r\n$-1\r\n:32\r\n*0\r\n-err\r\n$-1\r\n";

    let mut it = value.encoding_iter();
    while let Some(item) = it.pop_item() {
        item.encode(&mut buf);
    }

    assert_eq!(buf.as_ref(), &expected[..]);
}

#[test]
fn encoded_length_is_exact() {
    let samples = vec![
        Value::Nil,
        Value::Okay,
        Value::Status("oops".to_string()),
        Value::Int(0),
        Value::Int(-12345),
        Value::Int(i64::MIN),
        Value::Data(Vec::new()),
        Value::Data(b"abcdefghij".to_vec()),
        Value::Array(vec![Value::Int(7), Value::Array(vec![Value::Okay]), Value::Nil]),
    ];
    for v in &samples {
        let mut buf = BytesMut::new();
        v.encode(&mut buf);
        assert_eq!(buf.len(), v.encoding_len());
    }
}

#[test]
fn count_digits_counts_the_sign() {
    assert_eq!(count_digits(0), 1);
    assert_eq!(count_digits(9), 1);
    assert_eq!(count_digits(10), 2);
    assert_eq!(count_digits(12345), 5);
    assert_eq!(count_digits(-1), 2);
    assert_eq!(count_digits(-12345), 6);
    assert_eq!(count_digits(i64::MAX), 19);
    assert_eq!(count_digits(i64::MIN), 20);
}

#[test]
fn arguments_append_keeps_count_and_order() {
    let items: Vec<&[u8]> = vec![b"a", b"bb", b"ccc", b"dddd", b"eeeee"];
    for n in 0..=items.len() {
        let mut args: Arguments<Vec<u8>> = Arguments::default();
        for item in items.iter().take(n) {
            args.push(item.to_vec());
        }
        assert_eq!(args.n_args(), n);
        let mut it = args.iter();
        let mut seen = 0;
        while let Some(got) = it.next() {
            assert_eq!(got.as_slice(), items[seen]);
            seen += 1;
        }
        assert_eq!(seen, n);
    }
}

#[test]
fn arguments_first_is_the_front() {
    let mut args: Arguments<u64> = Arguments::default();
    assert!(args.first().is_none());
    args.push(7);
    args.push(8);
    assert_eq!(*args.first().unwrap(), 7);
}

fn leaf(bytes: &[u8]) -> Node<Vec<u8>> {
    Node::Leaf(FrameValue::BulkString(bytes.to_vec()))
}

#[test]
fn parse_command_accepts_get() {
    let nodes = vec![Node::Open(2), leaf(b"GET"), leaf(b"k"), Node::Close];
    match parse_command(nodes) {
        Ok(Cmd::GET { key }) => assert_eq!(key.as_slice(), b"k"),
        other => panic!("unexpected outcome: {:?}", other),
    }
}

#[test]
fn parse_command_accepts_del_with_many_keys() {
    let nodes = vec![
        Node::Open(4),
        leaf(b"DEL"),
        leaf(b"a"),
        leaf(b"b"),
        leaf(b"c"),
        Node::Close,
    ];
    match parse_command(nodes) {
        Ok(Cmd::DEL { keys }) => {
            let got: Vec<&[u8]> = keys.iter().map(|k| k.as_slice()).collect();
            assert_eq!(got, vec![&b"a"[..], &b"b"[..], &b"c"[..]]);
        },
        other => panic!("unexpected outcome: {:?}", other),
    }
}

#[test]
fn parse_command_names_each_failure() {
    // a frame that is not an array of at least two values
    assert!(matches!(
        parse_command(vec![Node::Open(1), leaf(b"GET"), Node::Close]),
        Err(ParseError::EmptyNodes)
    ));
    // an unknown keyword, and a known keyword with the wrong arity
    assert!(matches!(
        parse_command(vec![Node::Open(2), leaf(b"PING"), leaf(b"x"), Node::Close]),
        Err(ParseError::UnknownCmd)
    ));
    assert!(matches!(
        parse_command(vec![Node::Open(2), leaf(b"SET"), leaf(b"x"), Node::Close]),
        Err(ParseError::UnknownCmd)
    ));
    // an array where a value was expected
    assert!(matches!(
        parse_command(vec![Node::Open(2), Node::Open(1), leaf(b"x"), Node::Close]),
        Err(ParseError::Unexpected)
    ));
    // an absent value used as a key
    assert!(matches!(
        parse_command(vec![
            Node::Open(2),
            leaf(b"GET"),
            Node::Leaf(FrameValue::Nil),
            Node::Close,
        ]),
        Err(ParseError::NilError)
    ));
    // a value after the command was complete
    assert!(matches!(
        parse_command(vec![
            Node::Open(2),
            leaf(b"GET"),
            leaf(b"k"),
            leaf(b"extra"),
            Node::Close,
        ]),
        Err(ParseError::ExtraValues)
    ));
    // a frame that ends mid-command
    assert!(matches!(
        parse_command(vec![Node::Open(2), leaf(b"GET")]),
        Err(ParseError::UnknownError)
    ));
}

#[test]
fn protocol_replies_encode_exactly() {
    assert_eq!(RespProtocol::ok().into_bytes(), b"+Ok\r\n".to_vec());
    assert_eq!(RespProtocol::from_integer(-42).into_bytes(), b":-42\r\n".to_vec());
    assert_eq!(RespProtocol::Null.into_bytes(), b"$-1\r\n".to_vec());
    assert_eq!(
        RespProtocol::BulkString(b"foobar".to_vec()).into_bytes(),
        b"$6\r\nfoobar\r\n".to_vec()
    );
    let arr = RespProtocol::Array(vec![
        RespProtocol::ok(),
        RespProtocol::BulkString(b"x".to_vec()),
    ]);
    assert_eq!(arr.into_bytes(), b"*2\r\n+Ok\r\n$1\r\nx\r\n".to_vec());
}

#[test]
fn protocol_kind_mismatch_is_a_type_error() {
    assert!(matches!(RespProtocol::Null.as_bytes(), Err(ProtocolError::TypeError)));
    assert!(matches!(
        RespProtocol::Null.try_into_string_value(),
        Err(ProtocolError::TypeError)
    ));
    let sv = RespProtocol::BulkString(b"v".to_vec()).try_into_string_value().unwrap();
    assert_eq!(sv.0, b"v".to_vec());
}

#[test]
fn protocol_error_reply_names_the_failure() {
    let reply = RespProtocol::from_protocol_error(ProtocolError::ParseError);
    assert_eq!(reply.into_bytes(), b"-ParseError\r\n".to_vec());
}

#[test]
fn redis_value_round_trips_through_the_arena() {
    let input = b"*2\r\n$3\r\nfoo\r\n$3\r\nbar\r\n";
    let (consumed, rv) = resp_kv::redis_value::RedisValue::decode(&input[..])
        .unwrap()
        .unwrap();
    assert_eq!(consumed, input.len());
    let mut buf = BytesMut::new();
    rv.encode(&mut buf);
    assert_eq!(buf.as_ref(), &input[..]);
    assert_eq!(rv.size(), input.len());
}
