use resp_kv::decoder::{
    and, and_, any_byte, line_safe_byte, match_byte, match_bytes, or, DecodeBytes, DecodeError,
};

#[test]
fn match_bytes_splits_off_the_prefix() {
    let input = b"hello, world";
    let decoder = match_bytes(b"hello");

    assert_eq!(decoder.decode(&input[..]), Ok((&b", world"[..], &b"hello"[..])));
    assert_eq!(decoder.decode(&b"hel"[..]), Err(DecodeError::Incomplete));
    assert_eq!(decoder.decode(&b"help!"[..]), Err(DecodeError::Fail));
}

#[test]
fn count_bytes_reports_consumption() {
    let decoder = match_bytes(b"foo").count_bytes();
    assert_eq!(decoder.decode_all(&b"foo"[..]), Ok(3));
    assert_eq!(decoder.decode_all(&b"fooX"[..]), Err(DecodeError::Fail));
}

#[test]
fn sequencing_keeps_the_chosen_side() {
    let first = and_(match_byte(b'a'), match_byte(b'b'));
    assert_eq!(first.decode(&b"abc"[..]), Ok((&b"c"[..], b'a')));

    let second = and(match_byte(b'a'), match_byte(b'b'));
    assert_eq!(second.decode(&b"abc"[..]), Ok((&b"c"[..], b'b')));
}

#[test]
fn alternative_never_swallows_incomplete() {
    // a structural failure falls through to the second decoder, but a
    // request for more bytes does not: more input may still resolve it
    let decoder = or(match_byte(b'x'), any_byte);
    assert_eq!(decoder.decode(&b"y"[..]), Ok((&b""[..], b'y')));

    let hopeless = or(match_byte(b'x'), match_byte(b'y')).decode(&b""[..]);
    assert!(matches!(hopeless, Err(DecodeError::Incomplete)));
}

#[test]
fn repetition_scans_a_line() {
    let scan = line_safe_byte.many_().count_bytes();
    assert_eq!(scan.decode(&b"abc\r\nrest"[..]), Ok((&b"\r\nrest"[..], 3)));

    let exact = any_byte.repeat(4);
    let (rest, out) = exact.decode(&b"12345"[..]).unwrap();
    assert_eq!(rest, &b"5"[..]);
    assert_eq!(out, vec![b'1', b'2', b'3', b'4']);
    assert_eq!(any_byte.repeat(4).decode(&b"123"[..]), Err(DecodeError::Incomplete));
}

#[test]
fn mapping_transforms_the_output() {
    let decoder = any_byte.map(|b: u8| b.wrapping_add(1));
    assert_eq!(decoder.decode(&b"a"[..]), Ok((&b""[..], b'b')));

    let filtered = any_byte.filter(|b: &u8| *b != b'q');
    assert_eq!(filtered.decode(&b"q"[..]), Err(DecodeError::Fail));
    assert_eq!(filtered.decode(&b"r"[..]), Ok((&b""[..], b'r')));
}
