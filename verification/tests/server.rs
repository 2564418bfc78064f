use bytes::Bytes;
use resp_kv::command::{Arguments, Cmd};
use resp_kv::decode::decode_array;
use resp_kv::service::RedisService;
use resp_kv::store::Store;
use resp_kv::value::Value;

fn request(parts: &[&[u8]]) -> Arguments<Bytes> {
    let mut encoded: Vec<u8> = Vec::new();
    encoded.extend_from_slice(format!("*{}\r\n", parts.len()).as_bytes());
    for p in parts {
        encoded.extend_from_slice(format!("${}\r\n", p.len()).as_bytes());
        encoded.extend_from_slice(p);
        encoded.extend_from_slice(b"\r\n");
    }
    decode_array(&encoded).unwrap()
}

fn del_keys(keys: &[&[u8]]) -> Cmd<Vec<u8>> {
    let mut args: Arguments<Vec<u8>> = Arguments::default();
    for k in keys {
        args.push(k.to_vec());
    }
    Cmd::DEL { keys: args }
}

#[test]
fn store_get_set_del_scenario() {
    let mut store = Store::new();

    // a read of an absent key is the absent value
    let miss = store.run_command(Cmd::GET { key: b"k".to_vec() });
    assert!(matches!(miss, Value::Nil));

    // a write acknowledges, and the read gives the value back
    let set = store.run_command(Cmd::SET { key: b"k".to_vec(), value: b"v".to_vec() });
    assert!(matches!(set, Value::Okay));
    match store.run_command(Cmd::GET { key: b"k".to_vec() }) {
        Value::Data(d) => assert_eq!(d, b"v".to_vec()),
        other => panic!("unexpected reply: {:?}", other),
    }

    // removal counts exactly the keys that were present
    store.run_command(Cmd::SET { key: b"a".to_vec(), value: b"1".to_vec() });
    store.run_command(Cmd::SET { key: b"c".to_vec(), value: b"3".to_vec() });
    let removed = store.run_command(del_keys(&[b"a", b"b", b"c"]));
    assert!(matches!(removed, Value::Int(2)));
    assert!(matches!(store.run_command(Cmd::GET { key: b"a".to_vec() }), Value::Nil));
}

#[test]
fn store_overwrites_and_counts_duplicates_once() {
    let mut store = Store::new();
    store.run_command(Cmd::SET { key: b"k".to_vec(), value: b"old".to_vec() });
    store.run_command(Cmd::SET { key: b"k".to_vec(), value: b"new".to_vec() });
    match store.run_command(Cmd::GET { key: b"k".to_vec() }) {
        Value::Data(d) => assert_eq!(d, b"new".to_vec()),
        other => panic!("unexpected reply: {:?}", other),
    }
    let removed = store.run_command(del_keys(&[b"k", b"k"]));
    assert!(matches!(removed, Value::Int(1)));
}

#[test]
fn dispatch_error_keeps_the_service_usable() {
    let mut service = RedisService::new(Store::new());

    // the wrong arity earns an error reply and changes nothing
    let bad = service.call(request(&[b"SET", b"key"]));
    match bad {
        Value::Status(s) => assert_eq!(s, "Unknown Command"),
        other => panic!("unexpected reply: {:?}", other),
    }

    // the next well-formed commands still work
    let ok = service.call(request(&[b"SET", b"key", b"value"]));
    assert!(matches!(ok, Value::Okay));
    match service.call(request(&[b"GET", b"key"])) {
        Value::Data(d) => assert_eq!(d, b"value".to_vec()),
        other => panic!("unexpected reply: {:?}", other),
    }
    let removed = service.call(request(&[b"DEL", b"key", b"other"]));
    assert!(matches!(removed, Value::Int(1)));
}

#[test]
fn dispatch_rejects_unknown_keyword_and_case() {
    // the keyword match is exact and case-sensitive
    let mut args: Arguments<Bytes> = Arguments::default();
    args.push(Bytes::from_static(b"get"));
    args.push(Bytes::from_static(b"k"));
    assert!(resp_kv::command::Cmd::from_args(args).is_none());

    let mut args2: Arguments<Bytes> = Arguments::default();
    args2.push(Bytes::from_static(b"GET"));
    args2.push(Bytes::from_static(b"k"));
    assert!(matches!(
        resp_kv::command::Cmd::from_args(args2),
        Some(resp_kv::command::Cmd::GET { .. })
    ));
}

#[test]
fn materializer_counts_and_copies() {
    // the borrowed arguments of one frame end up as views of one arena
    let backing: Vec<u8> = b"GETmykey".to_vec();
    let mut borrowed: Arguments<&[u8]> = Arguments::default();
    borrowed.push(&backing[0..3]);
    borrowed.push(&backing[3..8]);
    assert_eq!(borrowed.n_bytes(), 8);
    let owned = borrowed.to_bytes();
    let mut it = owned.iter();
    assert_eq!(it.next().unwrap().as_ref(), b"GET");
    assert_eq!(it.next().unwrap().as_ref(), b"mykey");
    assert!(it.next().is_none());
}
