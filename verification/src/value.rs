//! The reply value model and its encoder. A `Value`'s wire size is
//! computable without producing any bytes, and encoding is a lazy,
//! iterative depth-first traversal that emits small items one at a time
//! instead of materializing a tree of byte fragments, so array nesting
//! depth never dictates the allocation shape of the hot path.

use crate::arena::{bytes_mut_extend, bytes_mut_reserve, bytes_mut_view};
use bytes::BytesMut;
use std::collections::VecDeque;
use vstd::prelude::*;

verus! {

/// A reply value: the absent value, the fixed acknowledgement, an error
/// text, a signed integer, a byte string, or an ordered array of values.
#[derive(Debug, PartialEq)]
pub enum Value {
    Nil,
    Okay,
    Status(String),
    Int(i64),
    Data(Vec<u8>),
    Array(Vec<Value>),
}

/// The two-byte line terminator.
pub open spec fn crlf() -> Seq<u8> {
    seq![13u8, 10u8]
}

/// The decimal digits of a non-negative integer, most significant first.
pub open spec fn dec_digits(n: int) -> Seq<u8>
    decreases n,
{
    if n < 10 {
        seq![(48 + if n >= 0 {
            n
        } else {
            0
        }) as u8]
    } else {
        dec_digits(n / 10).push((48 + n % 10) as u8)
    }
}

/// The decimal rendering of a signed integer, with a leading minus sign
/// when negative.
pub open spec fn spec_int_digits(n: int) -> Seq<u8> {
    if n < 0 {
        seq![45u8] + dec_digits(-n)
    } else {
        dec_digits(n)
    }
}

/// The payload bytes a value contributes between its marker line and the
/// final terminator: the error text, the integer's decimal form, or the
/// raw data; nothing for the other variants.
pub open spec fn spec_payload(v: Value) -> Seq<u8> {
    match v {
        Value::Status(s) => vstd::utf8::encode_utf8(s@),
        Value::Int(n) => spec_int_digits(n as int),
        Value::Data(xs) => xs@,
        _ => Seq::empty(),
    }
}

/// The exact wire encoding of a value.
pub open spec fn spec_encode(v: Value) -> Seq<u8>
    decreases v,
{
    match v {
        Value::Nil => seq![36u8, 45u8, 49u8, 13u8, 10u8],  // "$-1" and the terminator
        Value::Okay => seq![43u8, 79u8, 107u8, 13u8, 10u8],  // "+Ok" and the terminator
        Value::Status(s) => seq![45u8] + vstd::utf8::encode_utf8(s@) + crlf(),
        Value::Int(n) => seq![58u8] + spec_int_digits(n as int) + crlf(),
        Value::Data(xs) => seq![36u8] + dec_digits(xs@.len() as int) + crlf() + xs@ + crlf(),
        Value::Array(vs) => seq![42u8] + dec_digits(vs@.len() as int) + crlf() + spec_encode_list(
            vs@,
        ),
    }
}

/// The concatenated encodings of a sequence of values, in order.
pub open spec fn spec_encode_list(vs: Seq<Value>) -> Seq<u8>
    decreases vs,
{
    if vs.len() == 0 {
        Seq::empty()
    } else {
        spec_encode(vs[0]) + spec_encode_list(vs.drop_first())
    }
}

/// The number of nodes in a value, counting the value itself and every
/// nested array element; the measure that bounds the encoder's traversal.
pub open spec fn weight(v: Value) -> nat
    decreases v,
{
    match v {
        Value::Array(vs) => 1 + weight_list(vs@),
        _ => 1,
    }
}

/// The total node count of a sequence of values.
pub open spec fn weight_list(vs: Seq<Value>) -> nat
    decreases vs,
{
    if vs.len() == 0 {
        0
    } else {
        weight(vs[0]) + weight_list(vs.drop_first())
    }
}

/// Appending a value to a list appends its encoding.
proof fn lemma_encode_list_snoc(vs: Seq<Value>, v: Value)
    ensures
        spec_encode_list(vs.push(v)) == spec_encode_list(vs) + spec_encode(v),
    decreases vs.len(),
{
    if vs.len() == 0 {
        assert(vs =~= Seq::<Value>::empty());
        assert(vs.push(v).drop_first() =~= Seq::<Value>::empty());
        assert(spec_encode_list(Seq::<Value>::empty()) == Seq::<u8>::empty());
        assert(spec_encode_list(vs.push(v)) =~= spec_encode_list(vs) + spec_encode(v));
    } else {
        assert(vs.push(v).drop_first() =~= vs.drop_first().push(v));
        lemma_encode_list_snoc(vs.drop_first(), v);
        assert(vs.push(v)[0] == vs[0]);
        assert(spec_encode_list(vs.push(v)) == spec_encode(vs[0]) + (spec_encode_list(
            vs.drop_first(),
        ) + spec_encode(v)));
        assert(spec_encode_list(vs) == spec_encode(vs[0]) + spec_encode_list(vs.drop_first()));
        assert(spec_encode_list(vs.push(v)) =~= spec_encode_list(vs) + spec_encode(v));
    }
}

/// A list's encoding splits at any index into the encodings of the prefix
/// and the suffix.
proof fn lemma_encode_list_split(vs: Seq<Value>, i: int)
    requires
        0 <= i <= vs.len(),
    ensures
        spec_encode_list(vs) == spec_encode_list(vs.take(i)) + spec_encode_list(vs.skip(i)),
    decreases i,
{
    if i == 0 {
        assert(vs.take(0) =~= Seq::<Value>::empty());
        assert(vs.skip(0) =~= vs);
        assert(spec_encode_list(vs) =~= spec_encode_list(vs.take(0)) + spec_encode_list(
            vs.skip(0),
        ));
    } else {
        lemma_encode_list_split(vs.drop_first(), i - 1);
        assert(vs.take(i).drop_first() =~= vs.drop_first().take(i - 1));
        assert(vs.skip(i) =~= vs.drop_first().skip(i - 1));
        assert(spec_encode_list(vs) =~= spec_encode_list(vs.take(i)) + spec_encode_list(
            vs.skip(i),
        ));
    }
}

/// Appending a value to a list adds its weight.
proof fn lemma_weight_list_snoc(vs: Seq<Value>, v: Value)
    ensures
        weight_list(vs.push(v)) == weight_list(vs) + weight(v),
    decreases vs.len(),
{
    if vs.len() == 0 {
        assert(vs =~= Seq::<Value>::empty());
        assert(vs.push(v).drop_first() =~= Seq::<Value>::empty());
        assert(weight_list(Seq::<Value>::empty()) == 0);
    } else {
        assert(vs.push(v).drop_first() =~= vs.drop_first().push(v));
        lemma_weight_list_snoc(vs.drop_first(), v);
        assert(vs.push(v)[0] == vs[0]);
        assert(weight_list(vs.push(v)) == weight(vs[0]) + (weight_list(vs.drop_first()) + weight(
            v,
        )));
        assert(weight_list(vs) == weight(vs[0]) + weight_list(vs.drop_first()));
    }
}

/// The decimal digit sequence of a number is never empty.
proof fn lemma_dec_digits_nonempty(n: int)
    ensures
        dec_digits(n).len() >= 1,
{
}

/// Ten to the power `k`.
spec fn pow10(k: nat) -> int
    decreases k,
{
    if k == 0 {
        1
    } else {
        10 * pow10((k - 1) as nat)
    }
}

/// A number below ten to the `k` has at most `k` decimal digits.
proof fn lemma_dec_digits_len_le(n: int, k: nat)
    requires
        0 <= n,
        1 <= k,
        n < pow10(k),
    ensures
        dec_digits(n).len() <= k,
    decreases k,
{
    if n >= 10 {
        assert(k > 1) by {
            reveal_with_fuel(pow10, 2);
            assert(pow10(1) == 10);
        }
        assert(0 <= n / 10 && n / 10 < pow10((k - 1) as nat)) by (nonlinear_arith)
            requires
                n >= 10,
                n < pow10(k),
                pow10(k) == 10 * pow10((k - 1) as nat),
        ;
        lemma_dec_digits_len_le(n / 10, (k - 1) as nat);
    }
}

/// No 64-bit value has more than twenty decimal digits.
proof fn lemma_dec_digits_len_u64(n: u64)
    ensures
        dec_digits(n as int).len() <= 20,
{
    assert(pow10(20) == 100000000000000000000) by {
        reveal_with_fuel(pow10, 21);
    }
    lemma_dec_digits_len_le(n as int, 20);
}

/// Render the decimal digits of an unsigned integer.
pub(crate) fn render_u64(n: u64) -> (r: Vec<u8>)
    ensures
        r@ == dec_digits(n as int),
{
    let mut m: u64 = n;
    let mut out: Vec<u8> = Vec::new();
    proof {
        assert(dec_digits(n as int) =~= dec_digits(n as int) + out@);
    }
    loop
        invariant_except_break
            dec_digits(n as int) == dec_digits(m as int) + out@,
        ensures
            out@ == dec_digits(n as int),
        decreases m,
    {
        let ghost old_out = out@;
        let d: u8 = 48 + (m % 10) as u8;
        out.insert(0, d);
        proof {
            assert(out@ =~= seq![d] + old_out);
        }
        if m < 10 {
            proof {
                assert(dec_digits(m as int) =~= seq![d]);
                assert(dec_digits(n as int) =~= out@);
            }
            break ;
        }
        proof {
            assert(m / 10 < m) by (nonlinear_arith)
                requires
                    m >= 10,
            ;
            assert(dec_digits(m as int) =~= dec_digits((m / 10) as int).push(d));
            assert(dec_digits((m / 10) as int) + (seq![d] + old_out) =~= dec_digits(m as int)
                + old_out);
        }
        m = m / 10;
    }
    out
}

/// Render the decimal form of a signed integer, sign included.
pub(crate) fn render_i64(n: i64) -> (r: Vec<u8>)
    ensures
        r@ == spec_int_digits(n as int),
{
    if n >= 0 {
        render_u64(n as u64)
    } else {
        // the magnitude, computed in u64 so that the smallest value is
        // representable
        let mag: u64 = if n == i64::MIN {
            9223372036854775808u64
        } else {
            (-n) as u64
        };
        let digits = render_u64(mag);
        let mut out: Vec<u8> = Vec::new();
        out.push(45);
        let mut j: usize = 0;
        while j < digits.len()
            invariant
                j <= digits@.len(),
                out@ == seq![45u8] + digits@.take(j as int),
            decreases digits@.len() - j,
        {
            let ghost old_out = out@;
            out.push(digits[j]);
            proof {
                assert(out@ =~= seq![45u8] + digits@.take(j + 1));
            }
            j = j + 1;
        }
        proof {
            assert(digits@.take(digits@.len() as int) =~= digits@);
        }
        out
    }
}

/// The count of decimal digits of an unsigned integer.
pub(crate) fn count_digits_u64(n: u64) -> (r: usize)
    ensures
        r == dec_digits(n as int).len(),
{
    let mut m: u64 = n;
    let mut result: usize = 1;
    proof {
        lemma_dec_digits_len_u64(n);
        lemma_dec_digits_nonempty(n as int);
    }
    loop
        invariant
            1 <= result,
            result + dec_digits(m as int).len() == 1 + dec_digits(n as int).len(),
            dec_digits(m as int).len() >= 1,
            dec_digits(n as int).len() <= 20,
            result <= dec_digits(n as int).len(),
        ensures
            result == dec_digits(n as int).len(),
        decreases m,
    {
        if m < 10 {
            break ;
        }
        proof {
            assert(m / 10 < m) by (nonlinear_arith)
                requires
                    m >= 10,
            ;
            lemma_dec_digits_nonempty((m / 10) as int);
        }
        m = m / 10;
        result = result + 1;
    }
    result
}

/// The count of characters in the decimal form of a signed integer,
/// counting a leading minus sign for negative integers.
pub fn count_digits(v: i64) -> (r: usize)
    ensures
        r == spec_int_digits(v as int).len(),
{
    if v >= 0 {
        count_digits_u64(v as u64)
    } else {
        let mag: u64 = if v == i64::MIN {
            9223372036854775808u64
        } else {
            (-v) as u64
        };
        let r = count_digits_u64(mag);
        proof {
            lemma_dec_digits_len_u64(mag);
            lemma_dec_digits_nonempty(mag as int);
        }
        1 + r
    }
}

impl Value {
    /// The exact number of bytes the value encodes to, by a fixed
    /// per-variant formula, without producing any bytes.
    #[verifier::loop_isolation(false)]
    pub fn encoding_len(&self) -> (r: usize)
        requires
            spec_encode(*self).len() <= usize::MAX,
        ensures
            r == spec_encode(*self).len(),
        decreases *self,
    {
        match self {
            Value::Nil => 5,
            Value::Okay => 5,
            Value::Status(s) => s.as_str().len() + 3,
            Value::Int(n) => count_digits(*n) + 3,
            Value::Data(xs) => {
                let d = count_digits_u64(xs.len() as u64);
                d + xs.len() + 5
            },
            Value::Array(vs) => {
                let d = count_digits_u64(vs.len() as u64);
                let mut total: usize = d + 3;
                let mut j: usize = 0;
                proof {
                    assert(vs@.take(0) =~= Seq::<Value>::empty());
                }
                while j < vs.len()
                    invariant
                        j <= vs@.len(),
                        *self == Value::Array(*vs),
                        spec_encode(*self).len() <= usize::MAX,
                        total == 3 + dec_digits(vs@.len() as int).len() + spec_encode_list(
                            vs@.take(j as int),
                        ).len(),
                    decreases vs@.len() - j,
                {
                    proof {
                        lemma_encode_list_split(vs@, j + 1);
                        lemma_encode_list_split(vs@.take(j + 1), j as int);
                        assert(vs@.take(j + 1).take(j as int) =~= vs@.take(j as int));
                        assert(vs@.take(j + 1).skip(j as int) =~= seq![vs@[j as int]]);
                        assert(seq![vs@[j as int]].drop_first() =~= Seq::<Value>::empty());
                        assert(spec_encode_list(Seq::<Value>::empty()) == Seq::<u8>::empty());
                        assert(spec_encode_list(seq![vs@[j as int]]) =~= spec_encode(
                            vs@[j as int],
                        ));
                    }
                    let child_len = vs[j].encoding_len();
                    total = total + child_len;
                    j = j + 1;
                }
                proof {
                    assert(vs@.take(vs@.len() as int) =~= vs@);
                }
                total
            },
        }
    }

    /// The one emit-item that stands for this value at the head of the
    /// traversal: its whole line for a leaf, or just the marker line for
    /// an array, whose children follow as separate items.
    fn as_encode_item(&self) -> (r: EncodeItem)
        ensures
            match *self {
                Value::Array(vs) => r == EncodeItem::Prefix(42u8, vs.len()),
                _ => spec_item_bytes(r) == spec_encode(*self),
            },
    {
        match self {
            Value::Nil => EncodeItem::Static(&[36, 45, 49, 13, 10]),
            Value::Okay => EncodeItem::Static(&[43, 79, 107, 13, 10]),
            Value::Status(_) => EncodeItem::Enclosed(45, None, self),
            Value::Int(_) => EncodeItem::Enclosed(58, None, self),
            Value::Data(xs) => EncodeItem::Enclosed(36, Some(xs.len()), self),
            Value::Array(vs) => EncodeItem::Prefix(42, vs.len()),
        }
    }
}

/// One step of the lazy encoding: nothing, a fixed byte string, an array
/// marker line, or one value's marker, optional length line, payload and
/// terminator.
#[derive(Debug)]
pub enum EncodeItem<'a> {
    Done,
    Static(&'a [u8]),
    Prefix(u8, usize),
    Enclosed(u8, Option<usize>, &'a Value),
}

/// The bytes one emit-item stands for.
pub open spec fn spec_item_bytes(item: EncodeItem) -> Seq<u8> {
    match item {
        EncodeItem::Done => Seq::empty(),
        EncodeItem::Static(s) => s@,
        EncodeItem::Prefix(p, c) => seq![p] + dec_digits(c as int) + crlf(),
        EncodeItem::Enclosed(p, c, v) => seq![p] + (match c {
            Some(c) => dec_digits(c as int) + crlf(),
            None => Seq::empty(),
        }) + spec_payload(*v) + crlf(),
    }
}

impl<'a> EncodeItem<'a> {
    /// Append exactly this item's bytes to the buffer.
    pub fn encode(self, buf: &mut BytesMut)
        ensures
            bytes_mut_view(*final (buf)) == bytes_mut_view(*old(buf)) + spec_item_bytes(self),
    {
        let ghost base = bytes_mut_view(*buf);
        match self {
            EncodeItem::Done => {
                proof {
                    assert(base =~= base + spec_item_bytes(self));
                }
            },
            EncodeItem::Static(s) => {
                bytes_mut_extend(buf, s);
            },
            EncodeItem::Prefix(p, c) => {
                let marker: [u8; 1] = [p];
                bytes_mut_extend(buf, marker.as_slice());
                let digits = render_u64(c as u64);
                bytes_mut_extend(buf, digits.as_slice());
                bytes_mut_extend(buf, &[13, 10]);
                proof {
                    assert(bytes_mut_view(*buf) =~= base + spec_item_bytes(self));
                }
            },
            EncodeItem::Enclosed(p, c, v) => {
                let marker: [u8; 1] = [p];
                bytes_mut_extend(buf, marker.as_slice());
                match c {
                    Some(c) => {
                        let digits = render_u64(c as u64);
                        bytes_mut_extend(buf, digits.as_slice());
                        bytes_mut_extend(buf, &[13, 10]);
                    },
                    None => {},
                }
                match v {
                    Value::Status(s) => {
                        bytes_mut_extend(buf, s.as_str().as_bytes());
                    },
                    Value::Int(n) => {
                        let digits = render_i64(*n);
                        bytes_mut_extend(buf, digits.as_slice());
                    },
                    Value::Data(xs) => {
                        bytes_mut_extend(buf, xs.as_slice());
                    },
                    _ => {},
                }
                bytes_mut_extend(buf, &[13, 10]);
                proof {
                    assert(bytes_mut_view(*buf) =~= base + spec_item_bytes(self));
                }
            },
        }
    }

    /// The exact number of bytes this item encodes to.
    #[verifier::loop_isolation(false)]
    pub fn encoding_len(&self) -> (r: usize)
        requires
            spec_item_bytes(*self).len() <= usize::MAX,
        ensures
            r == spec_item_bytes(*self).len(),
    {
        match self {
            EncodeItem::Done => 0,
            EncodeItem::Static(s) => s.len(),
            EncodeItem::Prefix(_, c) => 3 + count_digits_u64(*c as u64),
            EncodeItem::Enclosed(_, c, v) => {
                let mut n: usize = 1;
                match c {
                    Some(c) => {
                        n = n + count_digits_u64(*c as u64);
                        n = n + 2;
                    },
                    None => {},
                }
                let payload_len: usize = match v {
                    Value::Status(s) => s.as_str().len(),
                    Value::Int(m) => count_digits(*m),
                    Value::Data(xs) => xs.len(),
                    _ => 0,
                };
                n = n + payload_len;
                n = n + 2;
                n
            },
        }
    }
}

/// The concatenated encodings of the values waiting in the traversal
/// queue, front to back.
pub open spec fn queue_encodings(q: Seq<&Value>) -> Seq<u8>
    decreases q.len(),
{
    if q.len() == 0 {
        Seq::empty()
    } else {
        spec_encode(*q[0]) + queue_encodings(q.drop_first())
    }
}

/// The total node count of the values waiting in the traversal queue.
pub open spec fn queue_weight(q: Seq<&Value>) -> nat
    decreases q.len(),
{
    if q.len() == 0 {
        0
    } else {
        weight(*q[0]) + queue_weight(q.drop_first())
    }
}

/// Appending a value to the queue appends its encoding and adds its
/// weight.
proof fn lemma_queue_snoc(q: Seq<&Value>, v: &Value)
    ensures
        queue_encodings(q.push(v)) == queue_encodings(q) + spec_encode(*v),
        queue_weight(q.push(v)) == queue_weight(q) + weight(*v),
    decreases q.len(),
{
    if q.len() == 0 {
        assert(q =~= Seq::<&Value>::empty());
        assert(q.push(v).drop_first() =~= Seq::<&Value>::empty());
        assert(q.push(v)[0] == v);
        assert(queue_encodings(Seq::<&Value>::empty()) == Seq::<u8>::empty());
        assert(queue_weight(Seq::<&Value>::empty()) == 0);
        assert(queue_encodings(q.push(v)) =~= queue_encodings(q) + spec_encode(*v));
    } else {
        assert(q.push(v).drop_first() =~= q.drop_first().push(v));
        lemma_queue_snoc(q.drop_first(), v);
        assert(q.push(v)[0] == q[0]);
        assert(queue_encodings(q.push(v)) == spec_encode(*q[0]) + (queue_encodings(q.drop_first())
            + spec_encode(*v)));
        assert(queue_encodings(q) == spec_encode(*q[0]) + queue_encodings(q.drop_first()));
        assert(queue_encodings(q.push(v)) =~= queue_encodings(q) + spec_encode(*v));
        assert(queue_weight(q.push(v)) == weight(*q[0]) + (queue_weight(q.drop_first()) + weight(
            *v,
        )));
        assert(queue_weight(q) == weight(*q[0]) + queue_weight(q.drop_first()));
    }
}

/// The lazy, resumable traversal that encodes a value as a stream of
/// emit-items: a cursor holding at most one pending item, and a queue of
/// values still to visit. Popping an array pushes its children in order
/// at the front, so items come out depth first.
pub struct EncodeIter<'a> {
    pub cursor: EncodeItem<'a>,
    pub values: VecDeque<&'a Value>,
}

impl<'a> EncodeIter<'a> {
    /// The bytes this traversal has yet to emit.
    pub open spec fn remaining(&self) -> Seq<u8> {
        spec_item_bytes(self.cursor) + queue_encodings(self.values@)
    }

    /// An upper bound on the steps this traversal can still take.
    pub open spec fn measure(&self) -> nat {
        queue_weight(self.values@) + (if self.cursor is Done {
            0nat
        } else {
            1nat
        })
    }

    /// The next emit-item, or `None` once everything has been emitted:
    /// the pending cursor item first, then the next queued value, whose
    /// children (for an array) are queued in front of the rest.
    #[verifier::loop_isolation(false)]
    pub fn pop_item(&mut self) -> (r: Option<EncodeItem<'a>>)
        ensures
            r matches Some(item) ==> old(self).remaining() == spec_item_bytes(item)
                + final (self).remaining() && final (self).measure() < old(self).measure(),
            r is None ==> old(self).remaining() == Seq::<u8>::empty() && final (self).remaining()
                == Seq::<u8>::empty(),
    {
        match self.cursor {
            EncodeItem::Done => {},
            _ => {
                let mut current = EncodeItem::Done;
                core::mem::swap(&mut self.cursor, &mut current);
                return Some(current);
            },
        }
        let ghost old_q = self.values@;
        let next_value = self.values.pop_front();
        match next_value {
            Some(value) => {
                let item = value.as_encode_item();
                match value {
                    Value::Array(vs) => {
                        let n = vs.len();
                        let mut i: usize = 0;
                        proof {
                            assert(old_q.drop_first() =~= self.values@);
                            assert(vs@.skip(n as int) =~= Seq::<Value>::empty());
                            assert(spec_encode_list(Seq::<Value>::empty()) == Seq::<u8>::empty());
                            assert(weight_list(Seq::<Value>::empty()) == 0);
                            assert(spec_encode_list(vs@.skip(n as int)) + queue_encodings(
                                self.values@,
                            ) =~= queue_encodings(self.values@));
                        }
                        while i < n
                            invariant
                                i <= n,
                                n == vs@.len(),
                                self.cursor is Done,
                                queue_encodings(self.values@) == spec_encode_list(
                                    vs@.skip((n - i) as int),
                                ) + queue_encodings(old_q.drop_first()),
                                queue_weight(self.values@) == weight_list(vs@.skip((n - i) as int))
                                    + queue_weight(old_q.drop_first()),
                            decreases n - i,
                        {
                            let j = n - i - 1;
                            let ghost q_before = self.values@;
                            self.values.push_front(&vs[j]);
                            proof {
                                assert(self.values@.drop_first() =~= q_before);
                                assert(vs@.skip(j as int).drop_first() =~= vs@.skip(j + 1));
                            }
                            i = i + 1;
                        }
                        proof {
                            assert(vs@.skip(0) =~= vs@);
                            assert(item == EncodeItem::Prefix(42u8, n));
                            assert(spec_item_bytes(item) == seq![42u8] + dec_digits(
                                vs@.len() as int,
                            ) + crlf());
                            assert(spec_encode(*value) == seq![42u8] + dec_digits(
                                vs@.len() as int,
                            ) + crlf() + spec_encode_list(vs@));
                            assert(weight(*value) == 1 + weight_list(vs@));
                            assert(spec_item_bytes(item) + self.remaining() =~= spec_encode(
                                *value,
                            ) + queue_encodings(old_q.drop_first()));
                            assert(queue_weight(self.values@) < weight(*value) + queue_weight(
                                old_q.drop_first(),
                            ));
                        }
                    },
                    _ => {
                        proof {
                            assert(spec_item_bytes(item) == spec_encode(*value));
                            assert(weight(*value) == 1);
                            assert(spec_item_bytes(item) + self.remaining() =~= spec_encode(
                                *value,
                            ) + queue_encodings(old_q.drop_first()));
                            assert(queue_weight(self.values@) < weight(*value) + queue_weight(
                                old_q.drop_first(),
                            ));
                        }
                    },
                }
                proof {
                    assert(queue_encodings(old_q) == spec_encode(*old_q[0]) + queue_encodings(
                        old_q.drop_first(),
                    ));
                    assert(queue_weight(old_q) == weight(*old_q[0]) + queue_weight(
                        old_q.drop_first(),
                    ));
                    assert(spec_encode(*value) + queue_encodings(old_q.drop_first())
                        =~= queue_encodings(old_q));
                }
                Some(item)
            },
            None => {
                proof {
                    assert(spec_item_bytes(EncodeItem::Done) =~= Seq::<u8>::empty());
                    assert(self.remaining() =~= Seq::<u8>::empty());
                }
                None
            },
        }
    }
}

impl Value {
    /// Begin the lazy encoding traversal of this value; iterating it to
    /// the end emits exactly this value's wire encoding.
    #[verifier::loop_isolation(false)]
    pub fn encoding_iter(&self) -> (r: EncodeIter)
        ensures
            r.remaining() == spec_encode(*self),
    {
        let mut queue: VecDeque<&Value> = VecDeque::new();
        match self {
            Value::Array(vs) => {
                let n = vs.len();
                let mut i: usize = 0;
                while i < n
                    invariant
                        i <= n,
                        n == vs@.len(),
                        queue_encodings(queue@) == spec_encode_list(vs@.take(i as int)),
                        queue_weight(queue@) == weight_list(vs@.take(i as int)),
                    decreases n - i,
                {
                    let ghost q_before = queue@;
                    queue.push_back(&vs[i]);
                    proof {
                        lemma_queue_snoc(q_before, &vs@[i as int]);
                        lemma_encode_list_snoc_front(vs@, i as int);
                    }
                    i = i + 1;
                }
                let cursor = EncodeItem::Prefix(42, n);
                proof {
                    assert(vs@.take(n as int) =~= vs@);
                    assert(spec_item_bytes(EncodeItem::Prefix(42u8, n)) + spec_encode_list(vs@)
                        =~= spec_encode(*self));
                }
                EncodeIter { cursor, values: queue }
            },
            _ => {
                queue.push_back(self);
                let cursor = EncodeItem::Done;
                proof {
                    assert(queue@.drop_first() =~= Seq::<&Value>::empty());
                    assert(queue_encodings(Seq::<&Value>::empty()) == Seq::<u8>::empty());
                    assert(queue_weight(Seq::<&Value>::empty()) == 0);
                    assert(spec_item_bytes(EncodeItem::Done) + queue_encodings(queue@)
                        =~= spec_encode(*self));
                }
                EncodeIter { cursor, values: queue }
            },
        }
    }

    /// Encode this value into the caller's buffer: reserve the exact
    /// encoded size once, then drive the lazy traversal to the end. The
    /// buffer grows by exactly the value's wire encoding.
    pub fn encode(&self, buf: &mut BytesMut)
        requires
            spec_encode(*self).len() <= usize::MAX,
        ensures
            bytes_mut_view(*final (buf)) == bytes_mut_view(*old(buf)) + spec_encode(*self),
    {
        let n = self.encoding_len();
        bytes_mut_reserve(buf, n);
        let ghost base = bytes_mut_view(*buf);
        let mut it = self.encoding_iter();
        loop
            invariant
                bytes_mut_view(*buf) + it.remaining() == base + spec_encode(*self),
            ensures
                bytes_mut_view(*buf) + it.remaining() == base + spec_encode(*self),
                it.remaining() == Seq::<u8>::empty(),
            decreases it.measure(),
        {
            match it.pop_item() {
                Some(item) => {
                    item.encode(buf);
                    proof {
                        assert(bytes_mut_view(*buf) + it.remaining() =~= base + spec_encode(
                            *self,
                        ));
                    }
                },
                None => {
                    break ;
                },
            }
        }
        proof {
            assert(bytes_mut_view(*buf) =~= base + spec_encode(*self));
        }
    }
}

/// A take of one more element appends that element's encoding.
proof fn lemma_encode_list_snoc_front(vs: Seq<Value>, i: int)
    requires
        0 <= i < vs.len(),
    ensures
        spec_encode_list(vs.take(i + 1)) == spec_encode_list(vs.take(i)) + spec_encode(vs[i]),
        weight_list(vs.take(i + 1)) == weight_list(vs.take(i)) + weight(vs[i]),
{
    assert(vs.take(i + 1) =~= vs.take(i).push(vs[i]));
    lemma_encode_list_snoc(vs.take(i), vs[i]);
    lemma_weight_list_snoc(vs.take(i), vs[i]);
}

} // verus!
