//! The concrete wire grammar: a bulk string is `$`, a length field, the
//! line terminator, that many payload bytes, and the terminator again; a
//! request frame is `*`, a count field, the terminator, and that many bulk
//! strings. Each decoder exists in a checking form, which only measures a
//! frame, and a slicing form, which extracts the payloads; both tolerate
//! partial input by reporting `Incomplete`, and reject structurally
//! invalid input as `Fail` without consuming anything.

use crate::arena::bytes_view;
use crate::command::Arguments;
use crate::decoder::DecodeError;
use crate::value::{crlf, dec_digits, spec_encode, spec_encode_list, spec_payload, Value};
use bytes::Bytes;
use vstd::prelude::*;
use vstd::slice::{slice_index_get, slice_subrange};

verus! {

/// The outcome of one decode attempt, at the specification level: how
/// many bytes a complete frame occupies and what it holds, or the reason
/// no verdict is possible yet.
pub enum Decoded<T> {
    Found(int, T),
    Incomplete,
    Malformed,
}

/// The position of the first CR or LF byte, if any.
pub open spec fn scan_line(s: Seq<u8>) -> Option<int>
    decreases s.len(),
{
    if s.len() == 0 {
        None
    } else if s[0] == 13 || s[0] == 10 {
        Some(0)
    } else {
        match scan_line(s.drop_first()) {
            None => None,
            Some(i) => Some(i + 1),
        }
    }
}

/// Whether a byte sequence is one or more decimal digits.
pub open spec fn is_digits(s: Seq<u8>) -> bool {
    s.len() > 0 && forall|i: int| 0 <= i < s.len() ==> 48 <= #[trigger] s[i] <= 57
}

/// The numeric value of a sequence of decimal digits.
pub open spec fn digits_val(s: Seq<u8>) -> int
    decreases s.len(),
{
    if s.len() == 0 {
        0
    } else {
        digits_val(s.drop_last()) * 10 + (s.last() - 48)
    }
}

/// The two bytes of the null sentinel length field, "-1".
pub open spec fn nil_field() -> Seq<u8> {
    seq![45u8, 49u8]
}

/// Decode a length field and its terminator: everything up to the first
/// CR or LF, which must begin a full two-byte terminator. Running out of
/// bytes before the terminator is complete is `Incomplete`; a lone LF or
/// a CR followed by anything but LF is `Malformed`.
pub open spec fn dec_field(s: Seq<u8>) -> Decoded<Seq<u8>> {
    match scan_line(s) {
        None => Decoded::Incomplete,
        Some(i) => {
            if i + 2 > s.len() {
                Decoded::Incomplete
            } else if s[i] != 13 || s[i + 1] != 10 {
                Decoded::Malformed
            } else {
                Decoded::Found(i + 2, s.take(i))
            }
        },
    }
}

/// Decode one bulk string at the head of the input: the `$` marker, a
/// length, the terminator, the payload, the terminator. The length must
/// be all digits and fit in sixty-four bits, except for the null sentinel
/// "-1", which stands for the absent value and carries no payload; any
/// other negative or malformed length is `Malformed`.
pub open spec fn dec_bulk(s: Seq<u8>) -> Decoded<Option<Seq<u8>>> {
    if s.len() == 0 {
        Decoded::Incomplete
    } else if s[0] != 36 {
        Decoded::Malformed
    } else {
        match dec_field(s.skip(1)) {
            Decoded::Incomplete => Decoded::Incomplete,
            Decoded::Malformed => Decoded::Malformed,
            Decoded::Found(c, field) => {
                if field == nil_field() {
                    Decoded::Found(1 + c, None)
                } else if !is_digits(field) || digits_val(field) > u64::MAX {
                    Decoded::Malformed
                } else {
                    let n = digits_val(field);
                    let body = s.skip(1 + c);
                    if body.len() < n + 2 {
                        Decoded::Incomplete
                    } else if body[n] == 13 && body[n + 1] == 10 {
                        Decoded::Found(1 + c + n + 2, Some(body.take(n)))
                    } else {
                        Decoded::Malformed
                    }
                }
            },
        }
    }
}

/// Decode exactly `n` bulk strings in sequence; any failure before the
/// `n`-th completion propagates as it is.
pub open spec fn dec_bulks(s: Seq<u8>, n: int) -> Decoded<Seq<Option<Seq<u8>>>>
    decreases n,
{
    if n <= 0 {
        Decoded::Found(0, Seq::empty())
    } else {
        match dec_bulk(s) {
            Decoded::Incomplete => Decoded::Incomplete,
            Decoded::Malformed => Decoded::Malformed,
            Decoded::Found(c, v) => match dec_bulks(s.skip(c), n - 1) {
                Decoded::Incomplete => Decoded::Incomplete,
                Decoded::Malformed => Decoded::Malformed,
                Decoded::Found(c2, vs) => Decoded::Found(c + c2, seq![v] + vs),
            },
        }
    }
}

/// Decode a request frame: the `*` marker, an arity, the terminator, then
/// exactly that many bulk strings. The null sentinel is not admitted in
/// the arity position: only an all-digit count is well formed there.
pub open spec fn dec_array(s: Seq<u8>) -> Decoded<Seq<Option<Seq<u8>>>> {
    if s.len() == 0 {
        Decoded::Incomplete
    } else if s[0] != 42 {
        Decoded::Malformed
    } else {
        match dec_field(s.skip(1)) {
            Decoded::Incomplete => Decoded::Incomplete,
            Decoded::Malformed => Decoded::Malformed,
            Decoded::Found(c, field) => {
                if !is_digits(field) || digits_val(field) > u64::MAX {
                    Decoded::Malformed
                } else {
                    match dec_bulks(s.skip(1 + c), digits_val(field)) {
                        Decoded::Incomplete => Decoded::Incomplete,
                        Decoded::Malformed => Decoded::Malformed,
                        Decoded::Found(c2, vs) => Decoded::Found(1 + c + c2, vs),
                    }
                }
            },
        }
    }
}

/// The bytes an argument contributes: a bulk string's payload, or nothing
/// for the null sentinel.
pub open spec fn arg_bytes(v: Option<Seq<u8>>) -> Seq<u8> {
    match v {
        Some(p) => p,
        None => Seq::empty(),
    }
}

/// The scan finds exactly the first CR or LF.
proof fn lemma_scan_found(s: Seq<u8>, k: int)
    requires
        0 <= k < s.len(),
        forall|j: int| 0 <= j < k ==> #[trigger] s[j] != 13 && s[j] != 10,
        s[k] == 13 || s[k] == 10,
    ensures
        scan_line(s) == Some(k),
    decreases k,
{
    if k > 0 {
        lemma_scan_found(s.drop_first(), k - 1);
    }
}

/// Without any CR or LF byte there is nothing to find.
proof fn lemma_scan_none(s: Seq<u8>)
    requires
        forall|j: int| 0 <= j < s.len() ==> #[trigger] s[j] != 13 && s[j] != 10,
    ensures
        scan_line(s) is None,
    decreases s.len(),
{
    if s.len() > 0 {
        lemma_scan_none(s.drop_first());
    }
}

/// What a successful scan says of the bytes it passed over and stopped
/// at.
proof fn lemma_scan_props(s: Seq<u8>)
    ensures
        match scan_line(s) {
            Some(i) => 0 <= i < s.len() && (s[i] == 13 || s[i] == 10) && forall|j: int|
                0 <= j < i ==> #[trigger] s[j] != 13 && s[j] != 10,
            None => forall|j: int| 0 <= j < s.len() ==> #[trigger] s[j] != 13 && s[j] != 10,
        },
    decreases s.len(),
{
    if s.len() > 0 && s[0] != 13 && s[0] != 10 {
        lemma_scan_props(s.drop_first());
        match scan_line(s.drop_first()) {
            Some(k) => {
                assert(scan_line(s) == Some(k + 1));
                assert forall|j: int| 0 <= j < k + 1 implies #[trigger] s[j] != 13 && s[j]
                    != 10 by {
                    if j > 0 {
                        assert(s.drop_first()[j - 1] == s[j]);
                    }
                }
            },
            None => {
                assert forall|j: int| 0 <= j < s.len() implies #[trigger] s[j] != 13 && s[j]
                    != 10 by {
                    if j > 0 {
                        assert(s.drop_first()[j - 1] == s[j]);
                    }
                }
            },
        }
    }
}

/// Scan a length field and its terminator starting at `pos`: the
/// executable form of `dec_field` on the input's tail. On progress the
/// field occupies `pos` up to the returned end, and the new position
/// stands just past the two terminator bytes.
fn parse_field(input: &[u8], pos: usize) -> (r: Result<(usize, usize), DecodeError>)
    requires
        pos <= input@.len(),
    ensures
        r matches Ok(p) ==> {
            &&& pos <= p.1 && p.1 + 2 == p.0 <= input@.len()
            &&& dec_field(input@.skip(pos as int)) == Decoded::Found(
                p.0 - pos,
                input@.subrange(pos as int, p.1 as int),
            )
        },
        r == Err::<(usize, usize), DecodeError>(DecodeError::Incomplete) <==> dec_field(
            input@.skip(pos as int),
        ) is Incomplete,
        r == Err::<(usize, usize), DecodeError>(DecodeError::Fail) <==> dec_field(
            input@.skip(pos as int),
        ) is Malformed,
{
    let ghost tail = input@.skip(pos as int);
    let n = input.len();
    let mut i: usize = pos;
    loop
        invariant
            pos <= i <= n,
            n == input@.len(),
            tail == input@.skip(pos as int),
            forall|j: int| 0 <= j < i - pos ==> #[trigger] tail[j] != 13 && tail[j] != 10,
        decreases n - i,
    {
        if i >= n {
            proof {
                lemma_scan_none(tail);
            }
            return Err(DecodeError::Incomplete);
        }
        let b = *slice_index_get(input, i);
        if b == 13 || b == 10 {
            proof {
                assert(tail[i - pos] == b);
                lemma_scan_found(tail, i - pos);
            }
            if i + 1 >= n {
                return Err(DecodeError::Incomplete);
            }
            let b2 = *slice_index_get(input, i + 1);
            proof {
                assert(tail[i + 1 - pos] == b2);
            }
            if b == 13 && b2 == 10 {
                proof {
                    assert(tail.take(i - pos) =~= input@.subrange(pos as int, i as int));
                }
                return Ok((i + 2, i));
            } else {
                return Err(DecodeError::Fail);
            }
        }
        proof {
            assert(tail[i - pos] == b);
        }
        i = i + 1;
    }
}

/// The value of a digit sequence never shrinks as digits are appended.
proof fn lemma_digits_val_nonneg(s: Seq<u8>)
    requires
        forall|i: int| 0 <= i < s.len() ==> 48 <= #[trigger] s[i] <= 57,
    ensures
        digits_val(s) >= 0,
    decreases s.len(),
{
    if s.len() > 0 {
        lemma_digits_val_nonneg(s.drop_last());
        assert(digits_val(s.drop_last()) * 10 >= 0) by (nonlinear_arith)
            requires
                digits_val(s.drop_last()) >= 0,
        ;
    }
}

/// A digit prefix never exceeds the value of the whole field.
proof fn lemma_digits_val_prefix_le(s: Seq<u8>, k: int)
    requires
        0 <= k <= s.len(),
        forall|i: int| 0 <= i < s.len() ==> 48 <= #[trigger] s[i] <= 57,
    ensures
        digits_val(s.take(k)) <= digits_val(s),
    decreases s.len() - k,
{
    if k < s.len() {
        lemma_digits_val_prefix_le(s, k + 1);
        assert(s.take(k + 1).drop_last() =~= s.take(k));
        lemma_digits_val_nonneg(s.take(k));
        assert(digits_val(s.take(k)) <= digits_val(s.take(k)) * 10 + (s.take(k + 1).last()
            - 48)) by (nonlinear_arith)
            requires
                digits_val(s.take(k)) >= 0,
                48 <= s.take(k + 1).last() <= 57,
        ;
    } else {
        assert(s.take(k) =~= s);
    }
}

/// Parse the field bytes between `start` and `end` as a decimal number:
/// the value, when the field is one or more digits and the value fits in
/// sixty-four bits, and nothing otherwise.
pub(crate) fn parse_u64_digits(input: &[u8], start: usize, end: usize) -> (r: Option<u64>)
    requires
        start <= end <= input@.len(),
    ensures
        ({
            let field = input@.subrange(start as int, end as int);
            match r {
                Some(v) => is_digits(field) && digits_val(field) == v,
                None => !is_digits(field) || digits_val(field) > u64::MAX,
            }
        }),
{
    let ghost field = input@.subrange(start as int, end as int);
    if start == end {
        return None;
    }
    let mut acc: u64 = 0;
    let mut i: usize = start;
    proof {
        assert(field.take(0) =~= Seq::<u8>::empty());
    }
    loop
        invariant
            start <= i <= end <= input@.len(),
            start < end,
            field == input@.subrange(start as int, end as int),
            forall|j: int| 0 <= j < i - start ==> 48 <= #[trigger] field[j] <= 57,
            acc == digits_val(field.take(i - start)),
        ensures
            i == end,
            is_digits(field),
            acc == digits_val(field),
        decreases end - i,
    {
        if i >= end {
            proof {
                assert(field.take(end - start) =~= field);
            }
            break ;
        }
        let b = *slice_index_get(input, i);
        proof {
            assert(field[i - start] == b);
        }
        if b < 48 || b > 57 {
            proof {
                assert(!is_digits(field)) by {
                    assert(48 <= field[i - start] <= 57 ==> false);
                }
            }
            return None;
        }
        let d = b - 48;
        proof {
            assert(field.take(i - start + 1).drop_last() =~= field.take(i - start));
            assert(field.take(i - start + 1).last() == b);
        }
        if acc > (u64::MAX - d as u64) / 10 {
            // the running value can only grow with further digits, so
            // the whole field is already out of range
            proof {
                let partial = field.take(i - start + 1);
                assert(digits_val(partial) == acc * 10 + d);
                assert(acc * 10 + d > u64::MAX) by (nonlinear_arith)
                    requires
                        acc > (u64::MAX - d as u64) / 10,
                        0 <= d <= 9,
                        acc <= u64::MAX,
                ;
                if is_digits(field) {
                    lemma_digits_val_prefix_le(field, i - start + 1);
                }
            }
            return None;
        }
        proof {
            assert(acc * 10 + d <= u64::MAX) by (nonlinear_arith)
                requires
                    acc <= (u64::MAX - d as u64) / 10,
                    0 <= d <= 9,
                ;
        }
        acc = acc * 10 + d as u64;
        i = i + 1;
    }
    Some(acc)
}

/// Decode one bulk string starting at `pos`: the executable form of
/// `dec_bulk` on the input's tail. On progress the returned position
/// stands just past the frame; the payload, when there is one, is
/// reported zero-copy as its start and length within the input.
pub fn decode_bulk(input: &[u8], pos: usize) -> (r: Result<
    (usize, Option<(usize, usize)>),
    DecodeError,
>)
    requires
        pos <= input@.len(),
    ensures
        r matches Ok(p) ==> ({
            &&& pos < p.0 <= input@.len()
            &&& match p.1 {
                Some(q) => q.0 + q.1 <= p.0 && pos <= q.0 && dec_bulk(input@.skip(pos as int))
                    == Decoded::Found(
                    p.0 - pos,
                    Some(input@.subrange(q.0 as int, q.0 + q.1)),
                ),
                None => dec_bulk(input@.skip(pos as int)) == Decoded::Found(
                    p.0 - pos,
                    None::<Seq<u8>>,
                ),
            }
        }),
        r == Err::<(usize, Option<(usize, usize)>), DecodeError>(DecodeError::Incomplete)
            <==> dec_bulk(input@.skip(pos as int)) is Incomplete,
        r == Err::<(usize, Option<(usize, usize)>), DecodeError>(DecodeError::Fail) <==> dec_bulk(
            input@.skip(pos as int),
        ) is Malformed,
{
    let ghost tail = input@.skip(pos as int);
    if pos >= input.len() {
        return Err(DecodeError::Incomplete);
    }
    let marker = *slice_index_get(input, pos);
    proof {
        assert(tail[0] == marker);
    }
    if marker != 36 {
        return Err(DecodeError::Fail);
    }
    proof {
        assert(tail.skip(1) =~= input@.skip(pos + 1));
    }
    match parse_field(input, pos + 1) {
        Err(e) => Err(e),
        Ok((np, fe)) => {
            let ghost field = input@.subrange(pos + 1, fe as int);
            let ghost c = np - (pos + 1);
            let is_nil = fe - (pos + 1) == 2 && *slice_index_get(input, pos + 1) == 45
                && *slice_index_get(input, pos + 2) == 49;
            proof {
                if is_nil {
                    assert(field =~= nil_field());
                } else {
                    if field == nil_field() {
                        assert(field.len() == 2);
                        assert(field[0] == 45 && field[1] == 49);
                        assert(input@[pos + 1] == field[0] && input@[pos + 2] == field[1]);
                    }
                }
            }
            if is_nil {
                Ok((np, None))
            } else {
                match parse_u64_digits(input, pos + 1, fe) {
                    None => Err(DecodeError::Fail),
                    Some(nv) => {
                        let remaining = input.len() - np;
                        proof {
                            assert(tail.skip(1 + c) =~= input@.skip(np as int));
                        }
                        if nv > remaining as u64 {
                            return Err(DecodeError::Incomplete);
                        }
                        let n_us = nv as usize;
                        if remaining - n_us < 2 {
                            return Err(DecodeError::Incomplete);
                        }
                        let b1 = *slice_index_get(input, np + n_us);
                        let b2 = *slice_index_get(input, np + n_us + 1);
                        proof {
                            assert(input@.skip(np as int)[nv as int] == b1);
                            assert(input@.skip(np as int)[nv as int + 1] == b2);
                        }
                        if b1 == 13 && b2 == 10 {
                            proof {
                                assert(input@.skip(np as int).take(nv as int) =~= input@.subrange(
                                    np as int,
                                    np + nv,
                                ));
                            }
                            Ok((np + n_us + 2, Some((np, n_us))))
                        } else {
                            Err(DecodeError::Fail)
                        }
                    },
                }
            }
        },
    }
}

/// Validate and measure one bulk string at the head of the input,
/// without touching its contents: the checking form of the bulk decoder.
pub fn check_bulk(input: &[u8]) -> (r: Result<usize, DecodeError>)
    ensures
        r matches Ok(c) ==> (dec_bulk(input@) matches Decoded::Found(cc, _) && cc == c),
        r == Err::<usize, DecodeError>(DecodeError::Incomplete) <==> dec_bulk(
            input@,
        ) is Incomplete,
        r == Err::<usize, DecodeError>(DecodeError::Fail) <==> dec_bulk(input@) is Malformed,
{
    proof {
        assert(input@.skip(0) =~= input@);
    }
    match decode_bulk(input, 0) {
        Ok((np, _)) => Ok(np),
        Err(e) => Err(e),
    }
}

/// Decode the `*` marker and the arity line of a request frame.
fn parse_array_header(input: &[u8]) -> (r: Result<(usize, u64), DecodeError>)
    ensures
        r matches Ok(p) ==> ({
            &&& 0 < p.0 <= input@.len()
            &&& input@.len() > 0 && input@[0] == 42
            &&& dec_field(input@.skip(1)) == Decoded::Found(
                p.0 - 1,
                input@.subrange(1, p.0 - 2),
            )
            &&& is_digits(input@.subrange(1, p.0 - 2))
            &&& digits_val(input@.subrange(1, p.0 - 2)) == p.1
        }),
        r == Err::<(usize, u64), DecodeError>(DecodeError::Incomplete) <==> (input@.len() == 0 || (
        input@[0] == 42 && dec_field(input@.skip(1)) is Incomplete)),
        r == Err::<(usize, u64), DecodeError>(DecodeError::Fail) <==> (input@.len() > 0 && (
        input@[0] != 42 || dec_field(input@.skip(1)) is Malformed || (dec_field(
            input@.skip(1),
        ) matches Decoded::Found(c, field) && (!is_digits(field) || digits_val(field)
            > u64::MAX)))),
{
    if input.len() == 0 {
        return Err(DecodeError::Incomplete);
    }
    let marker = *slice_index_get(input, 0);
    if marker != 42 {
        return Err(DecodeError::Fail);
    }
    match parse_field(input, 1) {
        Err(e) => Err(e),
        Ok((np, fe)) => {
            proof {
                assert(fe == np - 2);
            }
            match parse_u64_digits(input, 1, fe) {
                None => Err(DecodeError::Fail),
                Some(n) => Ok((np, n)),
            }
        },
    }
}

/// Validate a whole request frame and report the exact number of bytes
/// it occupies, without allocating or materializing its contents: this
/// is what a connection loop runs on an accumulating receive buffer
/// after every read, to decide cheaply whether a full frame has arrived.
#[verifier::loop_isolation(false)]
pub fn check_array(input: &[u8]) -> (r: Result<usize, DecodeError>)
    ensures
        r matches Ok(c) ==> (dec_array(input@) matches Decoded::Found(cc, _) && cc == c),
        r == Err::<usize, DecodeError>(DecodeError::Incomplete) <==> dec_array(
            input@,
        ) is Incomplete,
        r == Err::<usize, DecodeError>(DecodeError::Fail) <==> dec_array(input@) is Malformed,
{
    let header = parse_array_header(input);
    match header {
        Err(e) => Err(e),
        Ok((np, n)) => {
            let mut cur: usize = np;
            let mut i: u64 = 0;
            let ghost mut gvs: Seq<Option<Seq<u8>>> = Seq::empty();
            proof {
                assert(input@.skip(np as int).skip(0) =~= input@.skip(np as int));
                assert(gvs + Seq::<Option<Seq<u8>>>::empty() =~= gvs);
            }
            while i < n
                invariant
                    i <= n,
                    np <= cur <= input@.len(),
                    gvs.len() == i,
                    match dec_bulks(input@.skip(cur as int), n - i) {
                        Decoded::Found(c2, vs2) => dec_bulks(input@.skip(np as int), n as int)
                            == Decoded::Found(cur - np + c2, gvs + vs2),
                        Decoded::Incomplete => dec_bulks(
                            input@.skip(np as int),
                            n as int,
                        ) is Incomplete,
                        Decoded::Malformed => dec_bulks(
                            input@.skip(np as int),
                            n as int,
                        ) is Malformed,
                    },
                decreases n - i,
            {
                match decode_bulk(input, cur) {
                    Err(e) => {
                        return Err(e);
                    },
                    Ok((new_pos, _)) => {
                        proof {
                            let ghost c = new_pos - cur;
                            assert(input@.skip(cur as int).skip(c) =~= input@.skip(
                                new_pos as int,
                            ));
                            let v = match dec_bulk(input@.skip(cur as int)) {
                                Decoded::Found(_, v) => v,
                                _ => None,
                            };
                            match dec_bulks(input@.skip(new_pos as int), n - i - 1) {
                                Decoded::Found(c2, vs2) => {
                                    assert(gvs + (seq![v] + vs2) =~= (gvs.push(v)) + vs2);
                                },
                                _ => {},
                            }
                            gvs = gvs.push(v);
                        }
                        cur = new_pos;
                    },
                }
                i = i + 1;
            }
            proof {
                assert(dec_bulks(input@.skip(cur as int), 0) == Decoded::Found(
                    0,
                    Seq::<Option<Seq<u8>>>::empty(),
                ));
                assert(gvs + Seq::<Option<Seq<u8>>>::empty() =~= gvs);
            }
            Ok(cur)
        },
    }
}

/// How scanning a prefix relates to scanning the whole: a terminator
/// found early enough survives truncation, and none appears otherwise.
proof fn lemma_scan_take(s: Seq<u8>, i: int)
    requires
        0 <= i <= s.len(),
    ensures
        match scan_line(s) {
            Some(k) => if k < i {
                scan_line(s.take(i)) == Some(k)
            } else {
                scan_line(s.take(i)) is None
            },
            None => scan_line(s.take(i)) is None,
        },
{
    lemma_scan_props(s);
    let p = s.take(i);
    match scan_line(s) {
        Some(k) => {
            if k < i {
                assert(forall|j: int| 0 <= j < k ==> #[trigger] p[j] != 13 && p[j] != 10);
                lemma_scan_found(p, k);
            } else {
                assert(forall|j: int| 0 <= j < p.len() ==> #[trigger] p[j] != 13 && p[j] != 10);
                lemma_scan_none(p);
            }
        },
        None => {
            assert(forall|j: int| 0 <= j < p.len() ==> #[trigger] p[j] != 13 && p[j] != 10);
            lemma_scan_none(p);
        },
    }
}

/// Truncating a complete length line strictly inside it always leaves
/// the decoder waiting for more bytes, never a verdict.
proof fn lemma_field_split(s: Seq<u8>, i: int)
    requires
        dec_field(s) matches Decoded::Found(c, f),
        0 <= i < dec_field(s)->Found_0,
    ensures
        dec_field(s.take(i)) is Incomplete,
{
    lemma_scan_props(s);
    lemma_scan_take(s, i);
}

/// A complete length line decodes the same from any longer cut of the
/// same input.
proof fn lemma_field_take_after(u: Seq<u8>, m: int)
    requires
        dec_field(u) matches Decoded::Found(c, f),
        dec_field(u)->Found_0 <= m <= u.len(),
    ensures
        dec_field(u.take(m)) == dec_field(u),
{
    lemma_scan_props(u);
    lemma_scan_take(u, m);
    let k = scan_line(u)->Some_0;
    assert(u.take(m).take(k) =~= u.take(k));
}

/// A complete length line keeps decoding the same way when more bytes
/// arrive after it.
proof fn lemma_field_extends(s: Seq<u8>, t: Seq<u8>)
    requires
        dec_field(s) matches Decoded::Found(c, f),
        s.len() <= t.len(),
        s == t.take(s.len() as int),
    ensures
        dec_field(t) == dec_field(s),
{
    lemma_scan_props(s);
    lemma_prefix_index(s, t);
    let k = scan_line(s)->Some_0;
    assert(forall|j: int| 0 <= j < k ==> #[trigger] t[j] != 13 && t[j] != 10);
    assert(t[k] == s[k] && t[k + 1] == s[k + 1]);
    lemma_scan_found(t, k);
    assert(t.take(k) =~= s.take(k));
}

/// A prefix agrees with the whole, byte for byte.
proof fn lemma_prefix_index(s: Seq<u8>, t: Seq<u8>)
    requires
        s.len() <= t.len(),
        s == t.take(s.len() as int),
    ensures
        forall|j: int| 0 <= j < s.len() ==> s[j] == #[trigger] t[j],
{
    assert forall|j: int| 0 <= j < s.len() implies s[j] == #[trigger] t[j] by {
        assert(s[j] == t.take(s.len() as int)[j]);
    }
}

/// A complete bulk string occupies at least one byte and no more than
/// the input offered.
pub proof fn lemma_bulk_consumed_le(s: Seq<u8>)
    requires
        dec_bulk(s) is Found,
    ensures
        0 < dec_bulk(s)->Found_0 <= s.len(),
{
    let fr = dec_field(s.skip(1));
    lemma_scan_props(s.skip(1));
    assert(fr->Found_0 <= s.skip(1).len());
    let field = fr->Found_1;
    if field != nil_field() {
        lemma_digits_val_nonneg(field);
    }
}

/// Truncating a complete bulk string anywhere inside the bytes it
/// occupies leaves the decoder waiting for more input: a partial read is
/// never mistaken for a verdict.
pub proof fn lemma_bulk_split(s: Seq<u8>, i: int)
    requires
        dec_bulk(s) matches Decoded::Found(c, v),
        0 <= i < dec_bulk(s)->Found_0,
    ensures
        dec_bulk(s.take(i)) is Incomplete,
{
    lemma_bulk_consumed_le(s);
    lemma_scan_props(s.skip(1));
    let p = s.take(i);
    lemma_prefix_index(p, s);
    if i == 0 {
        assert(p.len() == 0);
    } else {
        assert(p[0] == 36);
        let fr = dec_field(s.skip(1));
        let cf = fr->Found_0;
        let field = fr->Found_1;
        assert forall|j: int| 0 <= j < i - 1 implies p.skip(1)[j] == #[trigger] s.skip(1)[j] by {
            assert(p.skip(1)[j] == p[j + 1]);
            assert(s.skip(1)[j] == s[j + 1]);
        }
        assert(p.skip(1) =~= s.skip(1).take(i - 1));
        if i - 1 < cf {
            lemma_field_split(s.skip(1), i - 1);
        } else {
            lemma_field_take_after(s.skip(1), i - 1);
            if field == nil_field() {
                // the whole frame is just the marker and the line, so a
                // cut inside it always falls in the line
                assert(dec_bulk(s)->Found_0 == 1 + cf);
                assert(false);
            } else {
                let n = digits_val(field);
                lemma_digits_val_nonneg(field);
                assert forall|j: int| 0 <= j < i - 1 - cf implies p.skip(1 + cf)[j]
                    == #[trigger] s.skip(1 + cf)[j] by {
                    assert(p.skip(1 + cf)[j] == p[1 + cf + j]);
                    assert(s.skip(1 + cf)[j] == s[1 + cf + j]);
                }
                assert(p.skip(1 + cf) =~= s.skip(1 + cf).take(i - 1 - cf));
                assert(p.skip(1 + cf).len() < n + 2);
            }
        }
    }
}

/// A complete bulk string keeps decoding to the same frame and payload
/// when more bytes arrive after it: retrying an accumulating buffer is
/// safe and stable.
pub proof fn lemma_bulk_extends(s: Seq<u8>, t: Seq<u8>)
    requires
        dec_bulk(s) matches Decoded::Found(c, v),
        s.len() <= t.len(),
        s == t.take(s.len() as int),
    ensures
        dec_bulk(t) == dec_bulk(s),
{
    lemma_bulk_consumed_le(s);
    lemma_scan_props(s.skip(1));
    lemma_prefix_index(s, t);
    assert(t[0] == s[0]);
    let fr = dec_field(s.skip(1));
    let cf = fr->Found_0;
    let field = fr->Found_1;
    assert forall|j: int| 0 <= j < s.len() - 1 implies s.skip(1)[j] == #[trigger] t.skip(
        1,
    )[j] by {
        assert(s.skip(1)[j] == s[j + 1]);
        assert(t.skip(1)[j] == t[j + 1]);
    }
    assert(s.skip(1) =~= t.skip(1).take(s.len() - 1));
    lemma_field_extends(s.skip(1), t.skip(1));
    if field != nil_field() {
        let n = digits_val(field);
        lemma_digits_val_nonneg(field);
        let body_s = s.skip(1 + cf);
        let body_t = t.skip(1 + cf);
        assert forall|j: int| 0 <= j < s.len() - 1 - cf implies body_s[j]
            == #[trigger] body_t[j] by {
            assert(body_s[j] == s[1 + cf + j]);
            assert(body_t[j] == t[1 + cf + j]);
        }
        assert(body_s =~= body_t.take(s.len() - 1 - cf));
        assert(body_t[n] == body_s[n] && body_t[n + 1] == body_s[n + 1]);
        assert(body_t.take(n) =~= body_s.take(n));
    }
}

/// The wire encoding of one bulk string carrying the given payload.
pub open spec fn enc_bulk(p: Seq<u8>) -> Seq<u8> {
    seq![36u8] + dec_digits(p.len() as int) + crlf() + p + crlf()
}

/// The wire encodings of a list of bulk strings, concatenated in order.
pub open spec fn enc_bulks(ps: Seq<Seq<u8>>) -> Seq<u8>
    decreases ps.len(),
{
    if ps.len() == 0 {
        Seq::empty()
    } else {
        enc_bulk(ps[0]) + enc_bulks(ps.drop_first())
    }
}

/// The wire encoding of a request array of the given byte strings.
pub open spec fn enc_request(ps: Seq<Seq<u8>>) -> Seq<u8> {
    seq![42u8] + dec_digits(ps.len() as int) + crlf() + enc_bulks(ps)
}

/// The byte strings of a request, as the arguments the decoder reports.
pub open spec fn as_args(ps: Seq<Seq<u8>>) -> Seq<Option<Seq<u8>>> {
    ps.map_values(|p: Seq<u8>| Some(p))
}

/// Rendering a number and reading it back is the identity: the digits
/// are digits, and they spell the same value.
pub proof fn lemma_digits_roundtrip(n: int)
    requires
        0 <= n,
    ensures
        is_digits(dec_digits(n)),
        digits_val(dec_digits(n)) == n,
    decreases n,
{
    if n < 10 {
        let d = dec_digits(n);
        assert(d =~= seq![(48 + n) as u8]);
        assert(d.drop_last() =~= Seq::<u8>::empty());
        assert(digits_val(Seq::<u8>::empty()) == 0);
    } else {
        assert(0 <= n / 10 < n && n / 10 * 10 + n % 10 == n && 0 <= n % 10 <= 9) by (nonlinear_arith)
            requires
                n >= 10,
        ;
        lemma_digits_roundtrip(n / 10);
        let d = dec_digits(n);
        assert(d == dec_digits(n / 10).push((48 + n % 10) as u8));
        assert(d.drop_last() =~= dec_digits(n / 10));
        assert(forall|i: int|
            0 <= i < d.len() - 1 ==> #[trigger] d[i] == dec_digits(n / 10)[i]);
    }
}

/// No digit is a terminator byte, so the scan of an encoded length line
/// stops exactly at its terminator.
proof fn lemma_field_of_digits(n: int, rest: Seq<u8>)
    requires
        0 <= n,
    ensures
        dec_field(dec_digits(n) + crlf() + rest) == Decoded::Found(
            dec_digits(n).len() + 2int,
            dec_digits(n),
        ),
{
    lemma_digits_roundtrip(n);
    let d = dec_digits(n);
    let s = d + crlf() + rest;
    assert(forall|j: int| 0 <= j < d.len() ==> #[trigger] s[j] == d[j]);
    assert(s[d.len() as int] == 13 && s[d.len() + 1int] == 10);
    lemma_scan_found(s, d.len() as int);
    assert(s.take(d.len() as int) =~= d);
}

/// A rendered digit field is never the null sentinel.
proof fn lemma_digits_not_nil(n: int)
    requires
        0 <= n,
    ensures
        dec_digits(n) != nil_field(),
{
    lemma_digits_roundtrip(n);
    if dec_digits(n) == nil_field() {
        assert(dec_digits(n)[0] == 45);
        assert(48 <= dec_digits(n)[0] <= 57);
    }
}

/// Decoding an encoded bulk string finds exactly the frame that was
/// written, whatever follows it.
#[verifier::rlimit(50)]
pub proof fn lemma_bulk_roundtrip(p: Seq<u8>, rest: Seq<u8>)
    requires
        p.len() <= u64::MAX,
    ensures
        dec_bulk(enc_bulk(p) + rest) == Decoded::Found(
            enc_bulk(p).len() as int,
            Some(p),
        ),
{
    let d = dec_digits(p.len() as int);
    let s = enc_bulk(p) + rest;
    assert(s[0] == 36);
    assert(s.skip(1) =~= d + crlf() + (p + crlf() + rest));
    lemma_field_of_digits(p.len() as int, p + crlf() + rest);
    lemma_digits_not_nil(p.len() as int);
    lemma_digits_roundtrip(p.len() as int);
    let cf = d.len() + 2int;
    let body = s.skip(1 + cf);
    assert(body =~= p + crlf() + rest);
    assert(body[p.len() as int] == 13 && body[p.len() + 1int] == 10);
    assert(body.take(p.len() as int) =~= p);
}

/// Decoding the concatenated encodings of `n` bulk strings finds exactly
/// those payloads, whatever follows them.
#[verifier::rlimit(50)]
proof fn lemma_bulks_roundtrip(ps: Seq<Seq<u8>>, rest: Seq<u8>)
    requires
        forall|i: int| 0 <= i < ps.len() ==> (#[trigger] ps[i]).len() <= u64::MAX,
    ensures
        dec_bulks(enc_bulks(ps) + rest, ps.len() as int) == Decoded::Found(
            enc_bulks(ps).len() as int,
            as_args(ps),
        ),
    decreases ps.len(),
{
    if ps.len() == 0 {
        assert(as_args(ps) =~= Seq::<Option<Seq<u8>>>::empty());
    } else {
        let s = enc_bulks(ps) + rest;
        assert(s =~= enc_bulk(ps[0]) + (enc_bulks(ps.drop_first()) + rest));
        lemma_bulk_roundtrip(ps[0], enc_bulks(ps.drop_first()) + rest);
        let c0 = enc_bulk(ps[0]).len() as int;
        assert(s.skip(c0) =~= enc_bulks(ps.drop_first()) + rest);
        lemma_bulks_roundtrip(ps.drop_first(), rest);
        assert(seq![Some(ps[0])] + as_args(ps.drop_first()) =~= as_args(ps));
    }
}

/// The payloads of a list of reply values, in order.
pub open spec fn payloads_of(vs: Seq<Value>) -> Seq<Seq<u8>> {
    vs.map_values(|c: Value| spec_payload(c))
}

/// The encoder writes a request array of bulk strings exactly as the
/// request grammar spells it: what `encode` emits for an array of data
/// values is the encoding this module's round trip speaks about.
pub proof fn lemma_value_encodes_request(v: Value)
    requires
        v matches Value::Array(vs),
        forall|i: int| 0 <= i < v->Array_0@.len() ==> #[trigger] v->Array_0@[i] is Data,
    ensures
        spec_encode(v) == enc_request(payloads_of(v->Array_0@)),
{
    let vs = v->Array_0@;
    lemma_datas_encode_as_bulks(vs);
    assert(payloads_of(vs).len() == vs.len());
    assert(spec_encode(v) =~= enc_request(payloads_of(vs)));
}

/// Data values encode, one after another, exactly as bulk strings.
proof fn lemma_datas_encode_as_bulks(vs: Seq<Value>)
    requires
        forall|i: int| 0 <= i < vs.len() ==> #[trigger] vs[i] is Data,
    ensures
        spec_encode_list(vs) == enc_bulks(payloads_of(vs)),
    decreases vs.len(),
{
    if vs.len() == 0 {
        assert(payloads_of(vs) =~= Seq::<Seq<u8>>::empty());
    } else {
        lemma_datas_encode_as_bulks(vs.drop_first());
        assert(payloads_of(vs.drop_first()) =~= payloads_of(vs).drop_first());
        assert(payloads_of(vs)[0] == spec_payload(vs[0]));
        assert(spec_encode(vs[0]) =~= enc_bulk(payloads_of(vs)[0]));
        assert(spec_encode_list(vs) =~= enc_bulks(payloads_of(vs)));
    }
}

/// Round trip: decoding the encoding of any supported request array of
/// byte strings reproduces the original list of byte strings exactly,
/// and consumes exactly the encoded frame.
#[verifier::rlimit(100)]
pub proof fn lemma_request_roundtrip(ps: Seq<Seq<u8>>)
    requires
        ps.len() <= u64::MAX,
        forall|i: int| 0 <= i < ps.len() ==> (#[trigger] ps[i]).len() <= u64::MAX,
    ensures
        dec_array(enc_request(ps)) == Decoded::Found(
            enc_request(ps).len() as int,
            as_args(ps),
        ),
{
    let d = dec_digits(ps.len() as int);
    let s = enc_request(ps);
    assert(s[0] == 42);
    assert(s.skip(1) =~= d + crlf() + enc_bulks(ps));
    lemma_field_of_digits(ps.len() as int, enc_bulks(ps));
    lemma_digits_roundtrip(ps.len() as int);
    let cf = d.len() + 2int;
    assert(s.skip(1 + cf) =~= enc_bulks(ps) + Seq::<u8>::empty());
    lemma_bulks_roundtrip(ps, Seq::empty());
    assert(enc_bulks(ps) + Seq::<u8>::empty() =~= enc_bulks(ps));
}

/// The argument a recorded payload range stands for: the bytes at that
/// range, or the absent value.
pub open spec fn range_val(input: Seq<u8>, r: Option<(usize, usize)>) -> Option<Seq<u8>> {
    match r {
        Some(p) => Some(input.subrange(p.0 as int, p.0 + p.1)),
        None => None,
    }
}

/// The arguments a sequence of recorded ranges stands for.
pub open spec fn ranges_vals(input: Seq<u8>, rs: Seq<Option<(usize, usize)>>) -> Seq<
    Option<Seq<u8>>,
> {
    rs.map_values(|r| range_val(input, r))
}

/// The total payload length of the first `k` recorded ranges.
pub open spec fn ranges_len_sum(rs: Seq<Option<(usize, usize)>>, k: int) -> int
    decreases k,
{
    if k <= 0 {
        0
    } else {
        ranges_len_sum(rs, k - 1) + (match rs[k - 1] {
            Some(p) => p.1 as int,
            None => 0,
        })
    }
}

/// Appending a range leaves the earlier partial sums alone.
proof fn lemma_ranges_len_sum_push(rs: Seq<Option<(usize, usize)>>, x: Option<(usize, usize)>, k: int)
    requires
        0 <= k <= rs.len(),
    ensures
        ranges_len_sum(rs.push(x), k) == ranges_len_sum(rs, k),
    decreases k,
{
    if k > 0 {
        lemma_ranges_len_sum_push(rs, x, k - 1);
    }
}

/// Decode a whole request frame, collecting each bulk string's payload
/// zero-copy as a range into the input; the absent value is recorded
/// without a range.
#[verifier::loop_isolation(false)]
fn parse_array_ranges(input: &[u8]) -> (r: Result<(usize, Vec<Option<(usize, usize)>>), DecodeError>)
    ensures
        r matches Ok(p) ==> ({
            &&& p.0 <= input@.len()
            &&& dec_array(input@) == Decoded::Found(p.0 as int, ranges_vals(input@, p.1@))
            &&& forall|k: int|
                0 <= k < p.1@.len() ==> (#[trigger] p.1@[k] matches Some(q) ==> q.0 + q.1
                    <= input@.len())
            &&& ranges_len_sum(p.1@, p.1@.len() as int) <= p.0
        }),
        r == Err::<(usize, Vec<Option<(usize, usize)>>), DecodeError>(DecodeError::Incomplete)
            <==> dec_array(input@) is Incomplete,
        r == Err::<(usize, Vec<Option<(usize, usize)>>), DecodeError>(DecodeError::Fail)
            <==> dec_array(input@) is Malformed,
{
    let header = parse_array_header(input);
    match header {
        Err(e) => Err(e),
        Ok((np, n)) => {
            let mut cur: usize = np;
            let mut i: u64 = 0;
            let mut ranges: Vec<Option<(usize, usize)>> = Vec::new();
            proof {
                assert(input@.skip(np as int).skip(0) =~= input@.skip(np as int));
            }
            while i < n
                invariant
                    i <= n,
                    np <= cur <= input@.len(),
                    ranges@.len() == i,
                    forall|k: int|
                        0 <= k < ranges@.len() ==> (#[trigger] ranges@[k] matches Some(q) ==> q.0
                            + q.1 <= input@.len()),
                    ranges_len_sum(ranges@, ranges@.len() as int) <= cur - np,
                    match dec_bulks(input@.skip(cur as int), n - i) {
                        Decoded::Found(c2, vs2) => dec_bulks(input@.skip(np as int), n as int)
                            == Decoded::Found(
                            cur - np + c2,
                            ranges_vals(input@, ranges@) + vs2,
                        ),
                        Decoded::Incomplete => dec_bulks(
                            input@.skip(np as int),
                            n as int,
                        ) is Incomplete,
                        Decoded::Malformed => dec_bulks(
                            input@.skip(np as int),
                            n as int,
                        ) is Malformed,
                    },
                decreases n - i,
            {
                match decode_bulk(input, cur) {
                    Err(e) => {
                        return Err(e);
                    },
                    Ok((new_pos, range)) => {
                        proof {
                            let c = new_pos - cur;
                            assert(input@.skip(cur as int).skip(c) =~= input@.skip(
                                new_pos as int,
                            ));
                            let v = range_val(input@, range);
                            assert(dec_bulk(input@.skip(cur as int)) == Decoded::Found(c, v));
                            assert(ranges_vals(input@, ranges@.push(range)) =~= ranges_vals(
                                input@,
                                ranges@,
                            ).push(v));
                            match dec_bulks(input@.skip(new_pos as int), n - i - 1) {
                                Decoded::Found(c2, vs2) => {
                                    assert(ranges_vals(input@, ranges@) + (seq![v] + vs2)
                                        =~= ranges_vals(input@, ranges@).push(v) + vs2);
                                },
                                _ => {},
                            }
                            lemma_ranges_len_sum_push(ranges@, range, ranges@.len() as int);
                        }
                        ranges.push(range);
                        cur = new_pos;
                    },
                }
                i = i + 1;
            }
            proof {
                assert(dec_bulks(input@.skip(cur as int), 0) == Decoded::Found(
                    0,
                    Seq::<Option<Seq<u8>>>::empty(),
                ));
                assert(ranges_vals(input@, ranges@) + Seq::<Option<Seq<u8>>>::empty()
                    =~= ranges_vals(input@, ranges@));
            }
            Ok((cur, ranges))
        },
    }
}

/// Decode a request frame that fills the input exactly, and hand its
/// arguments back as owned, shareable views: the borrowed payload slices
/// are materialized through one contiguous allocation, with the absent
/// value standing as an empty argument. Progress on anything short of
/// the whole input is a structural failure, as is malformed input;
/// partial input stays `Incomplete`.
#[verifier::loop_isolation(false)]
pub fn decode_array(bytes: &[u8]) -> (r: Result<Arguments<Bytes>, DecodeError>)
    ensures
        r matches Ok(args) ==> ({
            &&& dec_array(bytes@) matches Decoded::Found(c, vs) && c == bytes@.len()
                && args@.len() == vs.len() && forall|k: int|
                0 <= k < vs.len() ==> bytes_view(#[trigger] args@[k]) == arg_bytes(vs[k])
        }),
        r == Err::<Arguments<Bytes>, DecodeError>(DecodeError::Incomplete) <==> dec_array(
            bytes@,
        ) is Incomplete,
        r == Err::<Arguments<Bytes>, DecodeError>(DecodeError::Fail) <==> (dec_array(
            bytes@,
        ) is Malformed || (dec_array(bytes@) matches Decoded::Found(c, _) && c != bytes@.len())),
{
    match parse_array_ranges(bytes) {
        Err(e) => Err(e),
        Ok((consumed, ranges)) => {
            if consumed != bytes.len() {
                return Err(DecodeError::Fail);
            }
            let ghost vs = ranges_vals(bytes@, ranges@);
            let mut borrowed: Arguments<&[u8]> = Arguments::NoArgs;
            let mut j: usize = 0;
            while j < ranges.len()
                invariant
                    j <= ranges@.len(),
                    borrowed@.len() == j,
                    crate::command::bytes_len_sum(borrowed@, j as int) == ranges_len_sum(
                        ranges@,
                        j as int,
                    ),
                    forall|k: int|
                        0 <= k < j ==> (#[trigger] borrowed@[k])@ == arg_bytes(vs[k]),
                decreases ranges@.len() - j,
            {
                let piece: &[u8] = match ranges[j] {
                    Some(pr) => slice_subrange(bytes, pr.0, pr.0 + pr.1),
                    None => slice_subrange(bytes, 0, 0),
                };
                proof {
                    assert(vs[j as int] == range_val(bytes@, ranges@[j as int]));
                    if ranges@[j as int] is Some {
                        assert(piece@ == arg_bytes(vs[j as int]));
                    } else {
                        assert(piece@ =~= Seq::<u8>::empty());
                        assert(arg_bytes(vs[j as int]) =~= Seq::<u8>::empty());
                    }
                    crate::command::lemma_bytes_len_sum_push(borrowed@, piece, j as int);
                }
                borrowed.push(piece);
                j = j + 1;
            }
            let args = borrowed.to_bytes();
            Ok(args)
        },
    }
}

} // verus!
