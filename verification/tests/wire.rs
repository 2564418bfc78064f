use bytes::BytesMut;
use resp_kv::command::Arguments;
use resp_kv::decode::{check_array, check_bulk, decode_array, decode_bulk};
use resp_kv::decoder::DecodeError;
use resp_kv::redis_value::{decode_values_from_slice, RedisValue};

fn collect_args(args: &Arguments<bytes::Bytes>) -> Vec<Vec<u8>> {
    let mut out = Vec::new();
    let mut it = args.iter();
    while let Some(b) = it.next() {
        out.push(b.as_ref().to_vec());
    }
    out
}

#[test]
fn test_decode_ok() {
    let ok_tests: Vec<&str> = vec![
        "+Ok\r\n",
        "-MESSAGE error happenend\r\n",
        ":12\r\n",
        "$6\r\nfoobar\r\n",
        "$8\r\nfoo\r\nbar\r\n",
        "$-1\r\n",
        "*2\r\n$3\r\nfoo\r\n$3\r\nbar\r\n",
    ];
    for raw in &ok_tests {
        let result = decode_values_from_slice(raw.as_bytes());
        let (consumed, _) = result.unwrap();
        assert_eq!(consumed, raw.as_bytes().len());
    }
}

#[test]
fn test_decode_incomplete() {
    let incomplete_tests: Vec<&str> = vec![
        "+Ok\r",
        "-MESSAGE error happ",
        ":",
        "$6\r\n",
        "$8\r\nfoo\r",
        "$-1\r",
        "*2\r\n$3\r\nfoo\r\n",
    ];
    for raw in &incomplete_tests {
        let result = decode_values_from_slice(raw.as_bytes());
        assert!(matches!(result, Err(DecodeError::Incomplete)));
    }
}

#[test]
fn test_decode_from_buffer() {
    let buf = bytes::Bytes::from("*2\r\n$3\r\nfoo\r\n$3\r\nbar\r\n");
    let _redis_val = RedisValue::decode(buf.as_ref());

    assert_eq!(true, true);
}

#[test]
fn cmd_test_decode_bulk() {
    let input = b"$3\r\nfoo\r\n";

    assert_eq!(check_bulk(&input[..]), Ok(input.len()));
    let (consumed, payload) = decode_bulk(&input[..], 0).unwrap();
    assert_eq!(consumed, input.len());
    let (start, len) = payload.unwrap();
    assert_eq!(&input[start..start + len], b"foo");
}

#[test]
fn cmd_test_decode_array() {
    let input = b"*3\r\n$3\r\nfoo\r\n$4\r\nbars\r\n$1\r\nx\r\n";

    assert_eq!(check_array(&input[..]), Ok(input.len()));
    let args = decode_array(&input[..]).unwrap();
    assert_eq!(collect_args(&args), vec![b"foo".to_vec(), b"bars".to_vec(), b"x".to_vec()]);
}

#[test]
fn decode_test_decode_bulk() {
    let input = b"$3\r\nfoo\r\n";

    assert_eq!(check_bulk(&input[..]), Ok(input.len()));
    let (consumed, payload) = decode_bulk(&input[..], 0).unwrap();
    assert_eq!(consumed, input.len());
    let (start, len) = payload.unwrap();
    assert_eq!(&input[start..start + len], b"foo");
}

#[test]
fn decode_test_decode_array() {
    let input = b"*3\r\n$3\r\nfoo\r\n$4\r\nbars\r\n$1\r\nx\r\n";

    assert_eq!(check_array(&input[..]), Ok(input.len()));
    let args = decode_array(&input[..]).unwrap();
    assert_eq!(collect_args(&args), vec![b"foo".to_vec(), b"bars".to_vec(), b"x".to_vec()]);
}

#[test]
fn bulk_split_is_incomplete_and_retry_agrees() {
    // every cut inside a valid bulk string leaves the decoder waiting,
    // and decoding the reassembled whole gives the same verdict as
    // decoding it in one piece
    let input = b"$5\r\nhello\r\n";
    let whole = check_bulk(&input[..]).unwrap();
    assert_eq!(whole, input.len());
    for i in 0..input.len() {
        let first_read = &input[..i];
        assert_eq!(check_bulk(first_read), Err(DecodeError::Incomplete));
        let mut reassembled = first_read.to_vec();
        reassembled.extend_from_slice(&input[i..]);
        assert_eq!(check_bulk(&reassembled), Ok(whole));
    }
}

#[test]
fn array_request_round_trip() {
    // encoding a request and decoding it reproduces the byte strings
    let payloads: Vec<&[u8]> = vec![b"SET", b"key", b"value with spaces"];
    let mut encoded: Vec<u8> = Vec::new();
    encoded.extend_from_slice(format!("*{}\r\n", payloads.len()).as_bytes());
    for p in &payloads {
        encoded.extend_from_slice(format!("${}\r\n", p.len()).as_bytes());
        encoded.extend_from_slice(p);
        encoded.extend_from_slice(b"\r\n");
    }
    let args = decode_array(&encoded).unwrap();
    let got = collect_args(&args);
    assert_eq!(got.len(), payloads.len());
    for (g, p) in got.iter().zip(payloads.iter()) {
        assert_eq!(g.as_slice(), *p);
    }
}

#[test]
fn encoder_output_round_trips_through_the_decoder() {
    // a request array built and encoded by the library's own encoder
    // decodes back to the same byte strings
    let value = resp_kv::value::Value::Array(vec![
        resp_kv::value::Value::Data(b"DEL".to_vec()),
        resp_kv::value::Value::Data(b"one".to_vec()),
        resp_kv::value::Value::Data(Vec::new()),
    ]);
    let mut buf = BytesMut::new();
    value.encode(&mut buf);
    let args = decode_array(buf.as_ref()).unwrap();
    assert_eq!(
        collect_args(&args),
        vec![b"DEL".to_vec(), b"one".to_vec(), Vec::new()]
    );
}

#[test]
fn malformed_length_field_fails() {
    let input = b"*2\r\n$3\r\nfoo\r\n$bad\r\n";
    assert_eq!(check_array(&input[..]), Err(DecodeError::Fail));
    assert!(matches!(decode_array(&input[..]), Err(DecodeError::Fail)));
}

#[test]
fn partial_array_stays_incomplete() {
    assert_eq!(
        check_array(b"*2\r\n$3\r\nfoo\r\n"),
        Err(DecodeError::Incomplete)
    );
    assert!(matches!(
        decode_array(b"*2\r\n$3\r\nfoo\r\n"),
        Err(DecodeError::Incomplete)
    ));
}

#[test]
fn malformed_negative_lengths_fail() {
    // only the exact null sentinel is a legal negative length, and the
    // array arity admits no sentinel at all
    assert_eq!(check_bulk(b"$-2\r\nxx\r\n"), Err(DecodeError::Fail));
    assert_eq!(check_bulk(b"$-01\r\n"), Err(DecodeError::Fail));
    assert_eq!(check_bulk(b"$-1\r\n"), Ok(5));
    assert_eq!(check_array(b"*-1\r\n"), Err(DecodeError::Fail));
}

#[test]
fn materialized_args_survive_buffer_reuse() {
    // the receive buffer may be overwritten right after decoding: the
    // materialized arguments keep their own copy in the shared arena
    let mut receive: Vec<u8> = b"*2\r\n$3\r\nGET\r\n$5\r\nmykey\r\n".to_vec();
    let args = decode_array(&receive).unwrap();
    for b in receive.iter_mut() {
        *b = 0;
    }
    assert_eq!(collect_args(&args), vec![b"GET".to_vec(), b"mykey".to_vec()]);
}

#[test]
fn nil_inside_array_becomes_empty_argument() {
    let input = b"*2\r\n$-1\r\n$2\r\nok\r\n";
    let args = decode_array(&input[..]).unwrap();
    assert_eq!(collect_args(&args), vec![Vec::new(), b"ok".to_vec()]);
}

#[test]
fn frame_codec_advances_exactly_one_frame() {
    let mut codec = resp_kv::protocol::RedisCodec;
    let mut buf = BytesMut::new();
    buf.extend_from_slice(b"+Ok\r\n:12\r\n");
    let first = codec.decode(&mut buf).unwrap();
    assert!(first.is_some());
    assert_eq!(buf.as_ref(), b":12\r\n");
    let second = codec.decode(&mut buf).unwrap();
    assert!(second.is_some());
    assert_eq!(buf.as_ref(), b"");
    // an empty buffer only asks for more bytes
    assert!(codec.decode(&mut buf).unwrap().is_none());
}

#[test]
fn frame_codec_rejects_malformed() {
    let mut codec = resp_kv::protocol::RedisCodec;
    let mut buf = BytesMut::new();
    buf.extend_from_slice(b"!nonsense\r\n");
    assert!(codec.decode(&mut buf).is_err());
}
