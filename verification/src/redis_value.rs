//! The frame codec over the full reply grammar: single-line frames
//! (status, error, integer), bulk strings with the null sentinel, and
//! arrays of frames, possibly nested. Decoding works zero-copy in two
//! steps: the grammar pass yields values as ranges into the receive
//! buffer, and materialization copies all payloads once into a single
//! shared arena, every leaf becoming a sub-view of it.

use crate::arena::{
    bytes_as_slice, bytes_copy_from_slice, bytes_len, bytes_mut_extend, bytes_mut_freeze,
    bytes_mut_len, bytes_mut_view, bytes_mut_with_capacity, bytes_slice, bytes_view,
};
use crate::decode::{digits_val, is_digits, nil_field, Decoded};
use crate::decoder::DecodeError;
use crate::value::{crlf, dec_digits};
use bytes::{Bytes, BytesMut};
use vstd::prelude::*;
use vstd::slice::{slice_index_get, slice_subrange};
use vstd::string::StringSliceAdditionalSpecFns;

verus! {

/// A single wire value carrying its text or payload: a one-line status,
/// error or integer rendering, a bulk string, or the absent value.
#[derive(Debug)]
pub enum Value<T> {
    SimpleString(T),
    ErrorString(T),
    IntegerString(T),
    BulkString(T),
    Nil,
}

/// One element of a flattened frame: a leaf value, the opening of an
/// array with its element count, or the closing of an array.
#[derive(Debug)]
pub enum Node<T> {
    Leaf(Value<T>),
    Open(usize),
    Close,
}

/// The payload a decoded range stands for within the receive buffer.
pub open spec fn value_of(input: Seq<u8>, v: Value<(usize, usize)>) -> Value<Seq<u8>> {
    match v {
        Value::SimpleString(r) => Value::SimpleString(input.subrange(r.0 as int, r.1 as int)),
        Value::ErrorString(r) => Value::ErrorString(input.subrange(r.0 as int, r.1 as int)),
        Value::IntegerString(r) => Value::IntegerString(input.subrange(r.0 as int, r.1 as int)),
        Value::BulkString(r) => Value::BulkString(input.subrange(r.0 as int, r.1 as int)),
        Value::Nil => Value::Nil,
    }
}

/// The node a decoded node of ranges stands for.
pub open spec fn node_of(input: Seq<u8>, n: Node<(usize, usize)>) -> Node<Seq<u8>> {
    match n {
        Node::Leaf(v) => Node::Leaf(value_of(input, v)),
        Node::Open(c) => Node::Open(c),
        Node::Close => Node::Close,
    }
}

/// The nodes a decoded node list stands for.
pub open spec fn nodes_of(input: Seq<u8>, ns: Seq<Node<(usize, usize)>>) -> Seq<Node<Seq<u8>>> {
    ns.map_values(|n| node_of(input, n))
}

/// The position of the first LF byte, if any; this codec locates line
/// ends by the LF and then demands the CR before it.
pub open spec fn scan_lf(s: Seq<u8>) -> Option<int>
    decreases s.len(),
{
    if s.len() == 0 {
        None
    } else if s[0] == 10 {
        Some(0)
    } else {
        match scan_lf(s.drop_first()) {
            None => None,
            Some(i) => Some(i + 1),
        }
    }
}

/// Decode one frame at the head of the input: a single-line value, a
/// bulk string, or a whole array of frames, flattened as an opening
/// node, the element frames, and a closing node. Fewer than four bytes
/// can never show a complete line, so they are always `Incomplete`; a
/// line whose LF is not preceded by a CR, or that leaves no room for a
/// marker and content, is `Malformed`.
pub open spec fn dec_frame(s: Seq<u8>) -> Decoded<Seq<Node<Seq<u8>>>>
    decreases s.len(), 0int,
    via dec_frame_dec
{
    if s.len() < 4 {
        Decoded::Incomplete
    } else {
        match scan_lf(s) {
            None => Decoded::Incomplete,
            Some(n) => {
                if n <= 2 || s[n - 1] != 13 {
                    Decoded::Malformed
                } else {
                    let line = s.subrange(1, n - 1);
                    if s[0] == 43 {
                        Decoded::Found(n + 1, seq![Node::Leaf(Value::SimpleString(line))])
                    } else if s[0] == 45 {
                        Decoded::Found(n + 1, seq![Node::Leaf(Value::ErrorString(line))])
                    } else if s[0] == 58 {
                        Decoded::Found(n + 1, seq![Node::Leaf(Value::IntegerString(line))])
                    } else if s[0] == 36 {
                        if line == nil_field() {
                            Decoded::Found(n + 1, seq![Node::Leaf(Value::Nil)])
                        } else if !is_digits(line) || digits_val(line) > usize::MAX {
                            Decoded::Malformed
                        } else {
                            let m = digits_val(line);
                            if s.len() >= m + n + 3 {
                                if s[n + 1 + m] == 13 && s[n + 2 + m] == 10 {
                                    Decoded::Found(
                                        n + m + 3,
                                        seq![
                                            Node::Leaf(
                                                Value::BulkString(s.subrange(n + 1, n + 1 + m)),
                                            ),
                                        ],
                                    )
                                } else {
                                    Decoded::Malformed
                                }
                            } else {
                                Decoded::Incomplete
                            }
                        }
                    } else if s[0] == 42 {
                        if !is_digits(line) || digits_val(line) > usize::MAX {
                            Decoded::Malformed
                        } else {
                            let m = digits_val(line);
                            match dec_frame_items(s.skip(n + 1), m) {
                                Decoded::Incomplete => Decoded::Incomplete,
                                Decoded::Malformed => Decoded::Malformed,
                                Decoded::Found(c2, ns) => Decoded::Found(
                                    n + 1 + c2,
                                    seq![Node::Open(m as usize)] + ns + seq![
                                        Node::Close::<Seq<u8>>,
                                    ],
                                ),
                            }
                        }
                    } else {
                        Decoded::Malformed
                    }
                }
            },
        }
    }
}

#[via_fn]
proof fn dec_frame_dec(s: Seq<u8>) {
    lemma_scan_lf_props(s);
}

/// The scan finds the first LF, within bounds, if any.
proof fn lemma_scan_lf_props(s: Seq<u8>)
    ensures
        match scan_lf(s) {
            Some(i) => 0 <= i < s.len() && s[i] == 10 && forall|j: int|
                0 <= j < i ==> #[trigger] s[j] != 10,
            None => forall|j: int| 0 <= j < s.len() ==> #[trigger] s[j] != 10,
        },
    decreases s.len(),
{
    if s.len() > 0 && s[0] != 10 {
        lemma_scan_lf_props(s.drop_first());
        match scan_lf(s.drop_first()) {
            Some(k) => {
                assert forall|j: int| 0 <= j < k + 1 implies #[trigger] s[j] != 10 by {
                    if j > 0 {
                        assert(s.drop_first()[j - 1] == s[j]);
                    }
                }
            },
            None => {
                assert forall|j: int| 0 <= j < s.len() implies #[trigger] s[j] != 10 by {
                    if j > 0 {
                        assert(s.drop_first()[j - 1] == s[j]);
                    }
                }
            },
        }
    }
}

/// Decode exactly `k` frames in sequence, concatenating their flattened
/// nodes. A complete frame always occupies at least four bytes, so the
/// bound on each step's consumption only keeps the recursion well
/// founded; it is never the deciding case.
pub open spec fn dec_frame_items(s: Seq<u8>, k: int) -> Decoded<Seq<Node<Seq<u8>>>>
    decreases s.len(), k + 1,
{
    if k <= 0 {
        Decoded::Found(0, Seq::empty())
    } else {
        match dec_frame(s) {
            Decoded::Incomplete => Decoded::Incomplete,
            Decoded::Malformed => Decoded::Malformed,
            Decoded::Found(c, ns) => {
                if c < 1 || c > s.len() {
                    Decoded::Malformed
                } else {
                    match dec_frame_items(s.skip(c), k - 1) {
                        Decoded::Incomplete => Decoded::Incomplete,
                        Decoded::Malformed => Decoded::Malformed,
                        Decoded::Found(c2, ns2) => Decoded::Found(c + c2, ns + ns2),
                    }
                }
            },
        }
    }
}

/// The total payload length of the leaves among the first `k` nodes.
pub open spec fn nodes_len_sum(ns: Seq<Node<(usize, usize)>>, k: int) -> int
    decreases k,
{
    if k <= 0 {
        0
    } else {
        nodes_len_sum(ns, k - 1) + (match ns[k - 1] {
            Node::Leaf(v) => match v {
                Value::Nil => 0,
                Value::SimpleString(r) => r.1 - r.0,
                Value::ErrorString(r) => r.1 - r.0,
                Value::IntegerString(r) => r.1 - r.0,
                Value::BulkString(r) => r.1 - r.0,
            },
            _ => 0,
        })
    }
}

/// A range node is in bounds when its range lies inside the input and
/// runs forward.
pub open spec fn node_in_bounds(n: Node<(usize, usize)>, len: int) -> bool {
    match n {
        Node::Leaf(v) => match v {
            Value::Nil => true,
            Value::SimpleString(r) => r.0 <= r.1 <= len,
            Value::ErrorString(r) => r.0 <= r.1 <= len,
            Value::IntegerString(r) => r.0 <= r.1 <= len,
            Value::BulkString(r) => r.0 <= r.1 <= len,
        },
        _ => true,
    }
}

/// The LF scan finds exactly the first LF.
proof fn lemma_scan_lf_found(s: Seq<u8>, k: int)
    requires
        0 <= k < s.len(),
        forall|j: int| 0 <= j < k ==> #[trigger] s[j] != 10,
        s[k] == 10,
    ensures
        scan_lf(s) == Some(k),
    decreases k,
{
    if k > 0 {
        lemma_scan_lf_found(s.drop_first(), k - 1);
    }
}

/// Without an LF byte there is nothing to find.
proof fn lemma_scan_lf_none(s: Seq<u8>)
    requires
        forall|j: int| 0 <= j < s.len() ==> #[trigger] s[j] != 10,
    ensures
        scan_lf(s) is None,
    decreases s.len(),
{
    if s.len() > 0 {
        lemma_scan_lf_none(s.drop_first());
    }
}

/// Appending a node leaves the earlier partial payload totals alone.
proof fn lemma_nodes_len_sum_push(ns: Seq<Node<(usize, usize)>>, x: Node<(usize, usize)>, k: int)
    requires
        0 <= k <= ns.len(),
    ensures
        nodes_len_sum(ns.push(x), k) == nodes_len_sum(ns, k),
    decreases k,
{
    if k > 0 {
        lemma_nodes_len_sum_push(ns, x, k - 1);
    }
}

/// The payload total of a concatenation is the sum of the totals.
proof fn lemma_nodes_len_sum_concat(a: Seq<Node<(usize, usize)>>, b: Seq<Node<(usize, usize)>>)
    ensures
        nodes_len_sum(a + b, (a + b).len() as int) == nodes_len_sum(a, a.len() as int)
            + nodes_len_sum(b, b.len() as int),
    decreases b.len(),
{
    if b.len() == 0 {
        assert(a + b =~= a);
    } else {
        lemma_nodes_len_sum_concat(a, b.drop_last());
        assert(a + b =~= (a + b.drop_last()).push(b.last()));
        lemma_nodes_len_sum_push(a + b.drop_last(), b.last(), (a + b.drop_last()).len() as int);
        assert(b =~= b.drop_last().push(b.last()));
        lemma_nodes_len_sum_push(b.drop_last(), b.last(), b.len() - 1);
        assert(nodes_len_sum(a + b, (a + b).len() as int) == nodes_len_sum(
            a + b.drop_last(),
            (a + b.drop_last()).len() as int,
        ) + (match b.last() {
            Node::Leaf(v) => match v {
                Value::Nil => 0,
                Value::SimpleString(r) => r.1 - r.0,
                Value::ErrorString(r) => r.1 - r.0,
                Value::IntegerString(r) => r.1 - r.0,
                Value::BulkString(r) => r.1 - r.0,
            },
            _ => 0int,
        }));
    }
}

/// Find the first LF at or after `pos`.
fn find_lf(src: &[u8], pos: usize) -> (r: Option<usize>)
    requires
        pos <= src@.len(),
    ensures
        r matches Some(lf) ==> pos <= lf < src@.len() && scan_lf(src@.skip(pos as int)) == Some(
            lf - pos,
        ),
        r is None ==> scan_lf(src@.skip(pos as int)) is None,
{
    let ghost tail = src@.skip(pos as int);
    let n = src.len();
    let mut i: usize = pos;
    loop
        invariant
            pos <= i <= n,
            n == src@.len(),
            tail == src@.skip(pos as int),
            forall|j: int| 0 <= j < i - pos ==> #[trigger] tail[j] != 10,
        decreases n - i,
    {
        if i >= n {
            proof {
                lemma_scan_lf_none(tail);
            }
            return None;
        }
        let b = *slice_index_get(src, i);
        proof {
            assert(tail[i - pos] == b);
        }
        if b == 10 {
            proof {
                lemma_scan_lf_found(tail, i - pos);
            }
            return Some(i);
        }
        i = i + 1;
    }
}

/// Decode one frame starting at `from`, producing its flattened nodes
/// with every value given zero-copy as a range into the input. This is
/// the executable form of `dec_frame` on the input's tail; array
/// elements are decoded by recursion, at absolute positions so that the
/// collected ranges need no adjustment.
#[verifier::loop_isolation(false)]
#[verifier::rlimit(100)]
pub fn decode_one(src: &[u8], from: usize) -> (r: Result<
    (usize, Vec<Node<(usize, usize)>>),
    DecodeError,
>)
    requires
        from <= src@.len(),
    ensures
        r matches Ok(p) ==> ({
            &&& from < p.0 <= src@.len()
            &&& dec_frame(src@.skip(from as int)) == Decoded::Found(
                p.0 - from,
                nodes_of(src@, p.1@),
            )
            &&& forall|k: int|
                0 <= k < p.1@.len() ==> node_in_bounds(#[trigger] p.1@[k], src@.len() as int)
            &&& nodes_len_sum(p.1@, p.1@.len() as int) <= p.0 - from
        }),
        r == Err::<(usize, Vec<Node<(usize, usize)>>), DecodeError>(DecodeError::Incomplete)
            <==> dec_frame(src@.skip(from as int)) is Incomplete,
        r == Err::<(usize, Vec<Node<(usize, usize)>>), DecodeError>(DecodeError::Fail)
            <==> dec_frame(src@.skip(from as int)) is Malformed,
    decreases src@.len() - from,
{
    let ghost tail = src@.skip(from as int);
    if src.len() - from < 4 {
        return Err(DecodeError::Incomplete);
    }
    match find_lf(src, from) {
        None => Err(DecodeError::Incomplete),
        Some(lf) => {
            let ghost rel = lf - from;
            proof {
                assert(tail[0] == src@[from as int]);
            }
            if lf - from <= 2 {
                return Err(DecodeError::Fail);
            }
            proof {
                assert(tail[rel as int - 1] == src@[lf - 1]);
                assert(tail[rel as int] == src@[lf as int]);
            }
            if *slice_index_get(src, lf - 1) != 13 {
                return Err(DecodeError::Fail);
            }
            let ghost line = tail.subrange(1, rel - 1);
            proof {
                assert(line =~= src@.subrange(from + 1, lf as int - 1));
            }
            let marker = *slice_index_get(src, from);
            if marker == 43 || marker == 45 || marker == 58 {
                let value: Value<(usize, usize)> = if marker == 43 {
                    Value::SimpleString((from + 1, lf - 1))
                } else if marker == 45 {
                    Value::ErrorString((from + 1, lf - 1))
                } else {
                    Value::IntegerString((from + 1, lf - 1))
                };
                let mut nodes: Vec<Node<(usize, usize)>> = Vec::new();
                nodes.push(Node::Leaf(value));
                proof {
                    assert(nodes_of(src@, nodes@) =~= seq![node_of(src@, nodes@[0])]);
                    assert(nodes_len_sum(nodes@, 0) == 0);
                }
                Ok((lf + 1, nodes))
            } else if marker == 36 {
                let is_nil = lf - 1 - (from + 1) == 2 && *slice_index_get(src, from + 1) == 45
                    && *slice_index_get(src, from + 2) == 49;
                proof {
                    if is_nil {
                        assert(line =~= nil_field());
                    } else if line == nil_field() {
                        assert(line.len() == 2);
                        assert(src@[from + 1] == line[0] && src@[from + 2] == line[1]);
                    }
                }
                if is_nil {
                    let mut nodes: Vec<Node<(usize, usize)>> = Vec::new();
                    nodes.push(Node::Leaf(Value::Nil));
                    proof {
                        assert(nodes_of(src@, nodes@) =~= seq![node_of(src@, nodes@[0])]);
                        assert(nodes_len_sum(nodes@, 0) == 0);
                    }
                    return Ok((lf + 1, nodes));
                }
                match crate::decode::parse_u64_digits(src, from + 1, lf - 1) {
                    None => Err(DecodeError::Fail),
                    Some(m) => {
                        if m > usize::MAX as u64 {
                            return Err(DecodeError::Fail);
                        }
                        let m_us = m as usize;
                        let avail = src.len() - (lf + 1);
                        if m_us > avail {
                            return Err(DecodeError::Incomplete);
                        }
                        if avail - m_us < 2 {
                            return Err(DecodeError::Incomplete);
                        }
                        proof {
                            assert(tail[rel + 1 + m as int] == src@[lf + 1 + m as int]);
                            assert(tail[rel + 2 + m as int] == src@[lf + 2 + m as int]);
                        }
                        let b1 = *slice_index_get(src, lf + 1 + m_us);
                        let b2 = *slice_index_get(src, lf + 2 + m_us);
                        if b1 == 13 && b2 == 10 {
                            let mut nodes: Vec<Node<(usize, usize)>> = Vec::new();
                            nodes.push(Node::Leaf(Value::BulkString((lf + 1, lf + 1 + m_us))));
                            proof {
                                assert(tail.subrange(rel + 1, rel + 1 + m as int)
                                    =~= src@.subrange(lf + 1, lf + 1 + m as int));
                                assert(nodes_of(src@, nodes@) =~= seq![
                                    node_of(src@, nodes@[0]),
                                ]);
                                assert(nodes_len_sum(nodes@, 0) == 0);
                            }
                            Ok((lf + 3 + m_us, nodes))
                        } else {
                            Err(DecodeError::Fail)
                        }
                    },
                }
            } else if marker == 42 {
                match crate::decode::parse_u64_digits(src, from + 1, lf - 1) {
                    None => Err(DecodeError::Fail),
                    Some(m) => {
                        if m > usize::MAX as u64 {
                            return Err(DecodeError::Fail);
                        }
                        let m_us = m as usize;
                        let mut nodes: Vec<Node<(usize, usize)>> = Vec::new();
                        nodes.push(Node::Open(m_us));
                        let mut cur: usize = lf + 1;
                        let mut i: usize = 0;
                        let ghost body = src@.skip(lf + 1);
                        proof {
                            assert(body.skip(0) =~= body);
                            assert(tail.skip(rel + 1) =~= body);
                            assert(nodes_len_sum(nodes@, 0) == 0);
                            assert(nodes_of(src@, nodes@) =~= seq![
                                Node::Open::<Seq<u8>>(m_us),
                            ]);
                            assert(nodes_of(src@, nodes@).skip(1) =~= Seq::<
                                Node<Seq<u8>>,
                            >::empty());
                        }
                        while i < m_us
                            invariant
                                i <= m_us,
                                lf + 1 <= cur <= src@.len(),
                                nodes@.len() >= 1,
                                nodes@[0] == Node::Open::<(usize, usize)>(m_us),
                                forall|k: int|
                                    0 <= k < nodes@.len() ==> node_in_bounds(
                                        #[trigger] nodes@[k],
                                        src@.len() as int,
                                    ),
                                nodes_len_sum(nodes@, nodes@.len() as int) <= cur - from,
                                match dec_frame_items(src@.skip(cur as int), m_us - i) {
                                    Decoded::Found(c2, ns2) => dec_frame_items(
                                        src@.skip(lf + 1),
                                        m_us as int,
                                    ) == Decoded::Found(
                                        cur - (lf + 1) + c2,
                                        nodes_of(src@, nodes@).skip(1) + ns2,
                                    ),
                                    Decoded::Incomplete => dec_frame_items(
                                        src@.skip(lf + 1),
                                        m_us as int,
                                    ) is Incomplete,
                                    Decoded::Malformed => dec_frame_items(
                                        src@.skip(lf + 1),
                                        m_us as int,
                                    ) is Malformed,
                                },
                            decreases m_us - i,
                        {
                            match decode_one(src, cur) {
                                Err(e) => {
                                    return Err(e);
                                },
                                Ok((np, mut sub)) => {
                                    proof {
                                        let c = np - cur;
                                        assert(src@.skip(cur as int).skip(c) =~= src@.skip(
                                            np as int,
                                        ));
                                        let ns_item = nodes_of(src@, sub@);
                                        match dec_frame_items(src@.skip(np as int), m_us - i
                                            - 1) {
                                            Decoded::Found(c2, ns2) => {
                                                assert(nodes_of(src@, nodes@).skip(1) + (ns_item
                                                    + ns2) =~= (nodes_of(src@, nodes@).skip(1)
                                                    + ns_item) + ns2);
                                            },
                                            _ => {},
                                        }
                                        assert(nodes_of(src@, nodes@ + sub@) =~= nodes_of(
                                            src@,
                                            nodes@,
                                        ) + ns_item);
                                        assert(nodes_of(src@, nodes@ + sub@).skip(1)
                                            =~= nodes_of(src@, nodes@).skip(1) + ns_item);
                                        lemma_nodes_len_sum_concat(nodes@, sub@);
                                    }
                                    nodes.append(&mut sub);
                                    cur = np;
                                },
                            }
                            i = i + 1;
                        }
                        proof {
                            assert(dec_frame_items(src@.skip(cur as int), 0) == Decoded::Found(
                                0,
                                Seq::<Node<Seq<u8>>>::empty(),
                            ));
                            assert(nodes_of(src@, nodes@).skip(1) + Seq::<
                                Node<Seq<u8>>,
                            >::empty() =~= nodes_of(src@, nodes@).skip(1));
                        }
                        let ghost before_close = nodes@;
                        nodes.push(Node::Close);
                        proof {
                            assert(nodes_of(src@, nodes@) =~= nodes_of(src@, before_close).push(
                                Node::Close::<Seq<u8>>,
                            ));
                            assert(nodes_of(src@, nodes@) =~= seq![Node::Open::<Seq<u8>>(m_us)]
                                + nodes_of(src@, before_close).skip(1) + seq![
                                Node::Close::<Seq<u8>>,
                            ]);
                            lemma_nodes_len_sum_push(before_close, Node::Close, before_close.len() as int);
                            assert(nodes_len_sum(nodes@, nodes@.len() as int) == nodes_len_sum(
                                before_close,
                                before_close.len() as int,
                            ));
                        }
                        Ok((cur, nodes))
                    },
                }
            } else {
                Err(DecodeError::Fail)
            }
        },
    }
}

/// The outcome of the grammar pass: a single decoded value, or a
/// flattened node list for an array frame, all contents still borrowed
/// as ranges into the receive buffer.
#[derive(Debug)]
pub enum Values {
    One(Value<(usize, usize)>),
    Many(Vec<Node<(usize, usize)>>),
}

/// The flattened nodes a grammar-pass outcome stands for.
pub open spec fn vals_nodes(input: Seq<u8>, vals: Values) -> Seq<Node<Seq<u8>>> {
    match vals {
        Values::One(v) => seq![Node::Leaf(value_of(input, v))],
        Values::Many(ns) => nodes_of(input, ns@),
    }
}

/// The total payload length of a grammar-pass outcome.
pub open spec fn vals_len_sum(vals: Values) -> int {
    match vals {
        Values::One(v) => nodes_len_sum(seq![Node::Leaf(v)], 1),
        Values::Many(ns) => nodes_len_sum(ns@, ns@.len() as int),
    }
}

/// Whether every range of a grammar-pass outcome lies inside the input.
pub open spec fn vals_in_bounds(vals: Values, len: int) -> bool {
    match vals {
        Values::One(v) => node_in_bounds(Node::Leaf(v), len),
        Values::Many(ns) => forall|k: int|
            0 <= k < ns@.len() ==> node_in_bounds(#[trigger] ns@[k], len),
    }
}

impl Values {
    /// The number of payload bytes all leaves hold together: the exact
    /// size of the arena that materialization will allocate.
    pub fn byte_count(&self) -> (r: usize)
        requires
            vals_len_sum(*self) <= usize::MAX,
            vals_in_bounds(*self, usize::MAX as int),
        ensures
            r == vals_len_sum(*self),
    {
        match self {
            Values::One(v) => {
                proof {
                    assert(nodes_len_sum(seq![Node::Leaf(*v)], 0) == 0);
                }
                match v {
                    Value::Nil => 0,
                    Value::SimpleString(p) => p.1 - p.0,
                    Value::ErrorString(p) => p.1 - p.0,
                    Value::IntegerString(p) => p.1 - p.0,
                    Value::BulkString(p) => p.1 - p.0,
                }
            },
            Values::Many(ns) => {
                let mut sum: usize = 0;
                let mut i: usize = 0;
                let n = ns.len();
                proof {
                    assert(nodes_len_sum(ns@, 0) == 0);
                }
                while i < n
                    invariant
                        i <= n,
                        n == ns@.len(),
                        sum == nodes_len_sum(ns@, i as int),
                        nodes_len_sum(ns@, ns@.len() as int) <= usize::MAX,
                        forall|k: int|
                            0 <= k < ns@.len() ==> node_in_bounds(
                                #[trigger] ns@[k],
                                usize::MAX as int,
                            ),
                    decreases n - i,
                {
                    proof {
                        lemma_nodes_len_sum_mono(ns@, i + 1, ns@.len() as int);
                    }
                    let step: usize = match &ns[i] {
                        Node::Leaf(v) => match v {
                            Value::Nil => 0,
                            Value::SimpleString(p) => p.1 - p.0,
                            Value::ErrorString(p) => p.1 - p.0,
                            Value::IntegerString(p) => p.1 - p.0,
                            Value::BulkString(p) => p.1 - p.0,
                        },
                        _ => 0,
                    };
                    sum = sum + step;
                    i = i + 1;
                }
                sum
            },
        }
    }
}

/// The partial payload totals grow with the number of nodes counted.
proof fn lemma_nodes_len_sum_mono(ns: Seq<Node<(usize, usize)>>, k1: int, k2: int)
    requires
        0 <= k1 <= k2 <= ns.len(),
        forall|k: int| 0 <= k < ns.len() ==> node_in_bounds(#[trigger] ns[k], usize::MAX as int),
    ensures
        nodes_len_sum(ns, k1) <= nodes_len_sum(ns, k2),
    decreases k2,
{
    if k1 < k2 {
        lemma_nodes_len_sum_mono(ns, k1, k2 - 1);
    }
}

/// Run the grammar pass over a whole receive buffer prefix: one frame
/// decoded from the front, its contents reported as ranges into the
/// buffer, with the number of bytes the frame occupies.
#[verifier::loop_isolation(false)]
pub fn decode_values_from_slice(src: &[u8]) -> (r: Result<(usize, Values), DecodeError>)
    ensures
        r matches Ok(p) ==> ({
            &&& 0 < p.0 <= src@.len()
            &&& dec_frame(src@) == Decoded::Found(p.0 as int, vals_nodes(src@, p.1))
            &&& vals_in_bounds(p.1, src@.len() as int)
            &&& vals_len_sum(p.1) <= p.0
        }),
        r == Err::<(usize, Values), DecodeError>(DecodeError::Incomplete) <==> dec_frame(
            src@,
        ) is Incomplete,
        r == Err::<(usize, Values), DecodeError>(DecodeError::Fail) <==> dec_frame(
            src@,
        ) is Malformed,
{
    proof {
        assert(src@.skip(0) =~= src@);
    }
    match decode_one(src, 0) {
        Err(e) => Err(e),
        Ok((consumed, mut nodes)) => {
            if nodes.len() == 1 {
                let ghost all = nodes@;
                let node = nodes.remove(0);
                proof {
                    assert(node == all[0]);
                    assert(nodes_of(src@, all)[0] == node_of(src@, all[0]));
                    assert(nodes_of(src@, all).len() == 1);
                }
                match node {
                    Node::Leaf(v) => {
                        proof {
                            assert(all =~= seq![Node::Leaf(v)]);
                            assert(vals_nodes(src@, Values::One(v)) =~= nodes_of(src@, all));
                        }
                        Ok((consumed, Values::One(v)))
                    },
                    Node::Open(c) => {
                        // a decoded frame with one node is always a leaf:
                        // an array contributes its opening and closing
                        // nodes together
                        proof {
                            assert(false);
                        }
                        Err(DecodeError::Fail)
                    },
                    Node::Close => {
                        proof {
                            assert(false);
                        }
                        Err(DecodeError::Fail)
                    },
                }
            } else {
                Ok((consumed, Values::Many(nodes)))
            }
        },
    }
}

impl<T> Value<T> {
    /// Transform the carried text or payload, keeping the variant.
    fn map<R, F: FnOnce(T) -> R>(self, f: F) -> (r: Value<R>)
        requires
            forall|x: T| call_requires(f, (x,)),
        ensures
            self is Nil <==> r is Nil,
    {
        match self {
            Value::SimpleString(x) => Value::SimpleString(f(x)),
            Value::ErrorString(x) => Value::ErrorString(f(x)),
            Value::IntegerString(x) => Value::IntegerString(f(x)),
            Value::BulkString(x) => Value::BulkString(f(x)),
            Value::Nil => Value::Nil,
        }
    }

    /// A borrowing copy: the same variant around a borrow of the
    /// contents.
    pub fn as_ref(&self) -> (r: Value<&T>)
        ensures
            match *self {
                Value::SimpleString(ref x) => r matches Value::SimpleString(y) && y == x,
                Value::ErrorString(ref x) => r matches Value::ErrorString(y) && y == x,
                Value::IntegerString(ref x) => r matches Value::IntegerString(y) && y == x,
                Value::BulkString(ref x) => r matches Value::BulkString(y) && y == x,
                Value::Nil => r is Nil,
            },
    {
        match self {
            Value::SimpleString(x) => Value::SimpleString(x),
            Value::ErrorString(x) => Value::ErrorString(x),
            Value::IntegerString(x) => Value::IntegerString(x),
            Value::BulkString(x) => Value::BulkString(x),
            Value::Nil => Value::Nil,
        }
    }

    /// The contents, dropping the variant; nothing for the absent value.
    pub fn into_option(self) -> (r: Option<T>)
        ensures
            match self {
                Value::SimpleString(x) => r == Some(x),
                Value::ErrorString(x) => r == Some(x),
                Value::IntegerString(x) => r == Some(x),
                Value::BulkString(x) => r == Some(x),
                Value::Nil => r is None,
            },
    {
        match self {
            Value::SimpleString(x) => Some(x),
            Value::ErrorString(x) => Some(x),
            Value::IntegerString(x) => Some(x),
            Value::BulkString(x) => Some(x),
            Value::Nil => None,
        }
    }

    /// A borrow of the contents, if any.
    pub fn as_option(&self) -> (r: Option<&T>)
        ensures
            match *self {
                Value::SimpleString(ref x) => r == Some(x),
                Value::ErrorString(ref x) => r == Some(x),
                Value::IntegerString(ref x) => r == Some(x),
                Value::BulkString(ref x) => r == Some(x),
                Value::Nil => r is None,
            },
    {
        self.as_ref().into_option()
    }

    /// A cursor yielding the contents at most once.
    pub fn iter(&self) -> (r: ValueIter<T>)
        ensures
            match *self {
                Value::SimpleString(ref x) => r.value == Some(x),
                Value::ErrorString(ref x) => r.value == Some(x),
                Value::IntegerString(ref x) => r.value == Some(x),
                Value::BulkString(ref x) => r.value == Some(x),
                Value::Nil => r.value is None,
            },
    {
        ValueIter { value: self.as_ref().into_option() }
    }

    /// Take the value out, leaving the absent value behind.
    pub fn take(&mut self) -> (r: Self)
        ensures
            r == *old(self),
            *final (self) is Nil,
    {
        let mut this = Value::Nil;
        core::mem::swap(self, &mut this);
        this
    }
}

/// A cursor over a value's contents: one item for a present value, none
/// for the absent one.
pub struct ValueIter<'a, T> {
    pub value: Option<&'a T>,
}

impl<'a, T> ValueIter<'a, T> {
    /// The contents on the first call, nothing afterwards.
    pub fn next(&mut self) -> (r: Option<&'a T>)
        ensures
            r == old(self).value,
            final (self).value is None,
    {
        let mut taken: Option<&'a T> = None;
        core::mem::swap(&mut self.value, &mut taken);
        taken
    }
}

impl<T> Node<T> {
    /// Transform a leaf's contents, keeping the node shape.
    fn map<R, F: FnOnce(T) -> R>(self, f: F) -> (r: Node<R>)
        requires
            forall|x: T| call_requires(f, (x,)),
        ensures
            self is Leaf <==> r is Leaf,
            self matches Node::Open(c) ==> r == Node::Open::<R>(c),
            self is Close ==> r is Close,
    {
        match self {
            Node::Leaf(v) => Node::Leaf(v.map(f)),
            Node::Open(n) => Node::Open(n),
            Node::Close => Node::Close,
        }
    }

    /// A cursor over a leaf's contents; empty for the other nodes.
    fn value_iter(&self) -> (r: ValueIter<T>)
        ensures
            r.value is Some <==> (*self matches Node::Leaf(v) && !(v is Nil)),
    {
        match self {
            Node::Leaf(x) => x.iter(),
            _ => ValueIter { value: None },
        }
    }
}

/// The bytes a value holds; the absent value holds none.
pub open spec fn leaf_bytes(v: Value<Vec<u8>>) -> Seq<u8> {
    match v {
        Value::Nil => Seq::empty(),
        Value::SimpleString(x) => x@,
        Value::ErrorString(x) => x@,
        Value::IntegerString(x) => x@,
        Value::BulkString(x) => x@,
    }
}

impl Value<Vec<u8>> {
    /// A borrow of the held bytes; empty for the absent value.
    pub fn as_slice(&self) -> (r: &[u8])
        ensures
            r@ == leaf_bytes(*self),
    {
        match self {
            Value::SimpleString(v) => v.as_slice(),
            Value::ErrorString(v) => v.as_slice(),
            Value::IntegerString(v) => v.as_slice(),
            Value::BulkString(v) => v.as_slice(),
            Value::Nil => {
                let r: &[u8] = &[];
                proof {
                    assert(r@ =~= Seq::<u8>::empty());
                }
                r
            },
        }
    }
}

/// The contents a materialized value holds, as plain bytes.
pub open spec fn bytes_value_view(v: Value<Bytes>) -> Value<Seq<u8>> {
    match v {
        Value::SimpleString(b) => Value::SimpleString(bytes_view(b)),
        Value::ErrorString(b) => Value::ErrorString(bytes_view(b)),
        Value::IntegerString(b) => Value::IntegerString(bytes_view(b)),
        Value::BulkString(b) => Value::BulkString(bytes_view(b)),
        Value::Nil => Value::Nil,
    }
}

/// The contents a materialized node holds.
pub open spec fn bytes_node_view(n: Node<Bytes>) -> Node<Seq<u8>> {
    match n {
        Node::Leaf(v) => Node::Leaf(bytes_value_view(v)),
        Node::Open(c) => Node::Open(c),
        Node::Close => Node::Close,
    }
}

/// The contents a materialized node list holds.
pub open spec fn bytes_nodes_view(ns: Seq<Node<Bytes>>) -> Seq<Node<Seq<u8>>> {
    ns.map_values(|n| bytes_node_view(n))
}

/// The wire bytes one value encodes to.
pub open spec fn spec_value_bytes(v: Value<Seq<u8>>) -> Seq<u8> {
    match v {
        Value::Nil => seq![36u8, 45u8, 49u8, 13u8, 10u8],
        Value::SimpleString(b) => seq![43u8] + b + crlf(),
        Value::ErrorString(b) => seq![45u8] + b + crlf(),
        Value::IntegerString(b) => seq![58u8] + b + crlf(),
        Value::BulkString(b) => seq![36u8] + dec_digits(b.len() as int) + crlf() + b + crlf(),
    }
}

/// The wire bytes one node contributes: a leaf's whole encoding, an
/// array's marker line, and nothing for a closing node.
pub open spec fn spec_node_bytes(n: Node<Seq<u8>>) -> Seq<u8> {
    match n {
        Node::Leaf(v) => spec_value_bytes(v),
        Node::Open(c) => seq![42u8] + dec_digits(c as int) + crlf(),
        Node::Close => Seq::empty(),
    }
}

/// The wire bytes a flattened node list encodes to, in order.
pub open spec fn spec_nodes_bytes(ns: Seq<Node<Seq<u8>>>) -> Seq<u8>
    decreases ns.len(),
{
    if ns.len() == 0 {
        Seq::empty()
    } else {
        spec_node_bytes(ns[0]) + spec_nodes_bytes(ns.drop_first())
    }
}

/// Appending a node appends its bytes.
proof fn lemma_nodes_bytes_snoc(ns: Seq<Node<Seq<u8>>>, n: Node<Seq<u8>>)
    ensures
        spec_nodes_bytes(ns.push(n)) == spec_nodes_bytes(ns) + spec_node_bytes(n),
    decreases ns.len(),
{
    if ns.len() == 0 {
        assert(ns =~= Seq::<Node<Seq<u8>>>::empty());
        assert(ns.push(n).drop_first() =~= Seq::<Node<Seq<u8>>>::empty());
        assert(spec_nodes_bytes(Seq::<Node<Seq<u8>>>::empty()) == Seq::<u8>::empty());
        assert(spec_nodes_bytes(ns.push(n)) =~= spec_nodes_bytes(ns) + spec_node_bytes(n));
    } else {
        assert(ns.push(n).drop_first() =~= ns.drop_first().push(n));
        lemma_nodes_bytes_snoc(ns.drop_first(), n);
        assert(ns.push(n)[0] == ns[0]);
        assert(spec_nodes_bytes(ns.push(n)) == spec_node_bytes(ns[0]) + (spec_nodes_bytes(
            ns.drop_first(),
        ) + spec_node_bytes(n)));
        assert(spec_nodes_bytes(ns) == spec_node_bytes(ns[0]) + spec_nodes_bytes(
            ns.drop_first(),
        ));
        assert(spec_nodes_bytes(ns.push(n)) =~= spec_nodes_bytes(ns) + spec_node_bytes(n));
    }
}

/// One more node taken from the front appends that node's bytes.
proof fn lemma_nodes_bytes_take(ns: Seq<Node<Seq<u8>>>, i: int)
    requires
        0 <= i < ns.len(),
    ensures
        spec_nodes_bytes(ns.take(i + 1)) == spec_nodes_bytes(ns.take(i)) + spec_node_bytes(
            ns[i],
        ),
{
    assert(ns.take(i + 1) =~= ns.take(i).push(ns[i]));
    lemma_nodes_bytes_snoc(ns.take(i), ns[i]);
}

/// The bytes of a prefix never outrun the bytes of the whole.
proof fn lemma_nodes_bytes_prefix_le(ns: Seq<Node<Seq<u8>>>, i: int)
    requires
        0 <= i <= ns.len(),
    ensures
        spec_nodes_bytes(ns.take(i)).len() <= spec_nodes_bytes(ns).len(),
    decreases ns.len() - i,
{
    if i < ns.len() {
        lemma_nodes_bytes_prefix_le(ns, i + 1);
        lemma_nodes_bytes_take(ns, i);
    } else {
        assert(ns.take(i) =~= ns);
    }
}

/// The exact number of characters in the decimal rendering of a length
/// or count.
pub fn usize_string_size(v: usize) -> (r: usize)
    ensures
        r == dec_digits(v as int).len(),
{
    crate::value::count_digits_u64(v as u64)
}

impl Value<Bytes> {
    /// An owned bulk string holding a copy of the slice, or the absent
    /// value for an empty slice.
    pub fn from_slice(s: &[u8]) -> (r: Self)
        ensures
            s@.len() > 0 ==> (r matches Value::BulkString(b) && bytes_view(b) == s@),
            s@.len() == 0 ==> r is Nil,
    {
        if s.len() > 0 {
            Value::BulkString(bytes_copy_from_slice(s))
        } else {
            Value::Nil
        }
    }

    /// An integer value rendered to its decimal text, sign included.
    pub fn from_integer(n: i64) -> (r: Self)
        ensures
            r matches Value::IntegerString(b) && bytes_view(b)
                == crate::value::spec_int_digits(n as int),
    {
        let digits = crate::value::render_i64(n);
        Value::IntegerString(bytes_copy_from_slice(digits.as_slice()))
    }

    /// An error value carrying the given text.
    pub fn from_error(e: &str) -> (r: Self)
        ensures
            r matches Value::ErrorString(b) && bytes_view(b) == e.spec_bytes(),
    {
        Value::ErrorString(bytes_copy_from_slice(e.as_bytes()))
    }

    /// The exact number of bytes this value encodes to.
    pub fn size(&self) -> (r: usize)
        requires
            spec_value_bytes(bytes_value_view(*self)).len() <= usize::MAX,
        ensures
            r == spec_value_bytes(bytes_value_view(*self)).len(),
    {
        match self {
            Value::Nil => 5,
            Value::BulkString(b) => {
                let n = bytes_len(b);
                1 + usize_string_size(n) + 2 + n + 2
            },
            Value::SimpleString(b) => 1 + bytes_len(b) + 2,
            Value::ErrorString(b) => 1 + bytes_len(b) + 2,
            Value::IntegerString(b) => 1 + bytes_len(b) + 2,
        }
    }

    /// Append exactly this value's wire bytes to the buffer.
    fn encode(&self, buf: &mut BytesMut)
        ensures
            bytes_mut_view(*final (buf)) == bytes_mut_view(*old(buf)) + spec_value_bytes(
                bytes_value_view(*self),
            ),
    {
        let ghost base = bytes_mut_view(*buf);
        match self {
            Value::Nil => {
                bytes_mut_extend(buf, &[36, 45, 49, 13, 10]);
                proof {
                    assert(bytes_mut_view(*buf) =~= base + spec_value_bytes(
                        bytes_value_view(*self),
                    ));
                }
            },
            Value::SimpleString(b) => {
                bytes_mut_extend(buf, &[43]);
                bytes_mut_extend(buf, bytes_as_slice(b));
                bytes_mut_extend(buf, &[13, 10]);
                proof {
                    assert(bytes_mut_view(*buf) =~= base + spec_value_bytes(
                        bytes_value_view(*self),
                    ));
                }
            },
            Value::ErrorString(b) => {
                bytes_mut_extend(buf, &[45]);
                bytes_mut_extend(buf, bytes_as_slice(b));
                bytes_mut_extend(buf, &[13, 10]);
                proof {
                    assert(bytes_mut_view(*buf) =~= base + spec_value_bytes(
                        bytes_value_view(*self),
                    ));
                }
            },
            Value::IntegerString(b) => {
                bytes_mut_extend(buf, &[58]);
                bytes_mut_extend(buf, bytes_as_slice(b));
                bytes_mut_extend(buf, &[13, 10]);
                proof {
                    assert(bytes_mut_view(*buf) =~= base + spec_value_bytes(
                        bytes_value_view(*self),
                    ));
                }
            },
            Value::BulkString(b) => {
                bytes_mut_extend(buf, &[36]);
                let digits = crate::value::render_u64(bytes_len(b) as u64);
                bytes_mut_extend(buf, digits.as_slice());
                bytes_mut_extend(buf, &[13, 10]);
                bytes_mut_extend(buf, bytes_as_slice(b));
                bytes_mut_extend(buf, &[13, 10]);
                proof {
                    assert(bytes_mut_view(*buf) =~= base + spec_value_bytes(
                        bytes_value_view(*self),
                    ));
                }
            },
        }
    }
}

/// The payload bytes a borrowed value holds in the receive buffer;
/// nothing for the absent value.
pub open spec fn payload_of(input: Seq<u8>, v: Value<(usize, usize)>) -> Seq<u8> {
    match v {
        Value::Nil => Seq::empty(),
        Value::SimpleString(p) => input.subrange(p.0 as int, p.1 as int),
        Value::ErrorString(p) => input.subrange(p.0 as int, p.1 as int),
        Value::IntegerString(p) => input.subrange(p.0 as int, p.1 as int),
        Value::BulkString(p) => input.subrange(p.0 as int, p.1 as int),
    }
}

/// Copy one borrowed value's payload to the end of the arena under
/// construction, and report the value as the arena range it now
/// occupies.
fn stage_value(arena: &mut BytesMut, buf: &[u8], v: &Value<(usize, usize)>) -> (r: Value<
    (usize, usize),
>)
    requires
        node_in_bounds(Node::Leaf(*v), buf@.len() as int),
        bytes_mut_view(*old(arena)).len() + payload_of(buf@, *v).len() <= usize::MAX,
    ensures
        bytes_mut_view(*final (arena)) == bytes_mut_view(*old(arena)) + payload_of(buf@, *v),
        ({
            let s = bytes_mut_view(*old(arena)).len();
            let e = bytes_mut_view(*final (arena)).len();
            match *v {
                Value::Nil => r is Nil,
                Value::SimpleString(p) => r == Value::SimpleString((s as usize, e as usize)),
                Value::ErrorString(p) => r == Value::ErrorString((s as usize, e as usize)),
                Value::IntegerString(p) => r == Value::IntegerString((s as usize, e as usize)),
                Value::BulkString(p) => r == Value::BulkString((s as usize, e as usize)),
            }
        }),
{
    let ghost old_view = bytes_mut_view(*arena);
    match v {
        Value::Nil => {
            proof {
                assert(bytes_mut_view(*arena) =~= old_view + payload_of(buf@, *v));
            }
            Value::Nil
        },
        Value::SimpleString(p) => {
            let start = bytes_mut_len(arena);
            bytes_mut_extend(arena, slice_subrange(buf, p.0, p.1));
            let end = bytes_mut_len(arena);
            Value::SimpleString((start, end))
        },
        Value::ErrorString(p) => {
            let start = bytes_mut_len(arena);
            bytes_mut_extend(arena, slice_subrange(buf, p.0, p.1));
            let end = bytes_mut_len(arena);
            Value::ErrorString((start, end))
        },
        Value::IntegerString(p) => {
            let start = bytes_mut_len(arena);
            bytes_mut_extend(arena, slice_subrange(buf, p.0, p.1));
            let end = bytes_mut_len(arena);
            Value::IntegerString((start, end))
        },
        Value::BulkString(p) => {
            let start = bytes_mut_len(arena);
            bytes_mut_extend(arena, slice_subrange(buf, p.0, p.1));
            let end = bytes_mut_len(arena);
            Value::BulkString((start, end))
        },
    }
}

/// A complete, materialized frame: the flattened nodes, every leaf a
/// zero-copy sub-view of one shared arena produced when the frame was
/// decoded.
#[derive(Debug)]
pub struct RedisValue {
    pub nodes: Vec<Node<Bytes>>,
}

impl RedisValue {
    /// The fixed acknowledgement reply.
    pub fn ok() -> (r: Self)
        ensures
            bytes_nodes_view(r.nodes@) =~= seq![
                Node::Leaf(Value::SimpleString(seq![79u8, 107u8])),
            ],
    {
        let mut nodes: Vec<Node<Bytes>> = Vec::new();
        nodes.push(Node::Leaf(Value::SimpleString(bytes_copy_from_slice(&[79, 107]))));
        proof {
            assert(bytes_nodes_view(nodes@) =~= seq![bytes_node_view(nodes@[0])]);
            assert(bytes_view(nodes@[0]->Leaf_0->SimpleString_0) =~= seq![79u8, 107u8]);
        }
        RedisValue { nodes }
    }

    /// A frame holding one value.
    pub fn from_value(v: Value<Bytes>) -> (r: Self)
        ensures
            bytes_nodes_view(r.nodes@) =~= seq![Node::Leaf(bytes_value_view(v))],
    {
        let mut nodes: Vec<Node<Bytes>> = Vec::new();
        nodes.push(Node::Leaf(v));
        proof {
            assert(bytes_nodes_view(nodes@) =~= seq![bytes_node_view(nodes@[0])]);
        }
        RedisValue { nodes }
    }

    /// The exact number of bytes this frame encodes to.
    pub fn size(&self) -> (r: usize)
        requires
            spec_nodes_bytes(bytes_nodes_view(self.nodes@)).len() <= usize::MAX,
        ensures
            r == spec_nodes_bytes(bytes_nodes_view(self.nodes@)).len(),
    {
        let ghost view = bytes_nodes_view(self.nodes@);
        let mut total: usize = 0;
        let mut i: usize = 0;
        let n = self.nodes.len();
        proof {
            assert(view.take(0) =~= Seq::<Node<Seq<u8>>>::empty());
            assert(spec_nodes_bytes(Seq::<Node<Seq<u8>>>::empty()) == Seq::<u8>::empty());
        }
        while i < n
            invariant
                i <= n,
                n == self.nodes@.len(),
                view == bytes_nodes_view(self.nodes@),
                spec_nodes_bytes(view).len() <= usize::MAX,
                total == spec_nodes_bytes(view.take(i as int)).len(),
            decreases n - i,
        {
            proof {
                lemma_nodes_bytes_take(view, i as int);
                lemma_nodes_bytes_prefix_le(view, i + 1);
            }
            let step: usize = match &self.nodes[i] {
                Node::Open(c) => 1 + usize_string_size(*c) + 2,
                Node::Close => 0,
                Node::Leaf(v) => v.size(),
            };
            total = total + step;
            i = i + 1;
        }
        proof {
            assert(view.take(n as int) =~= view);
        }
        total
    }

    /// Encode this frame into the caller's buffer, reserving its exact
    /// size up front; the buffer grows by exactly the frame's wire
    /// bytes.
    pub fn encode(&self, buf: &mut BytesMut)
        requires
            spec_nodes_bytes(bytes_nodes_view(self.nodes@)).len() <= usize::MAX,
        ensures
            bytes_mut_view(*final (buf)) == bytes_mut_view(*old(buf)) + spec_nodes_bytes(
                bytes_nodes_view(self.nodes@),
            ),
    {
        let ghost view = bytes_nodes_view(self.nodes@);
        let size = self.size();
        crate::arena::bytes_mut_reserve(buf, size);
        let ghost base = bytes_mut_view(*buf);
        let mut i: usize = 0;
        let n = self.nodes.len();
        proof {
            assert(view.take(0) =~= Seq::<Node<Seq<u8>>>::empty());
            assert(spec_nodes_bytes(Seq::<Node<Seq<u8>>>::empty()) == Seq::<u8>::empty());
            assert(base + spec_nodes_bytes(view.take(0)) =~= base);
        }
        while i < n
            invariant
                i <= n,
                n == self.nodes@.len(),
                view == bytes_nodes_view(self.nodes@),
                bytes_mut_view(*buf) == base + spec_nodes_bytes(view.take(i as int)),
            decreases n - i,
        {
            proof {
                lemma_nodes_bytes_take(view, i as int);
            }
            match &self.nodes[i] {
                Node::Open(c) => {
                    bytes_mut_extend(buf, &[42]);
                    let digits = crate::value::render_u64(*c as u64);
                    bytes_mut_extend(buf, digits.as_slice());
                    bytes_mut_extend(buf, &[13, 10]);
                },
                Node::Close => {},
                Node::Leaf(v) => {
                    v.encode(buf);
                },
            }
            proof {
                assert(bytes_mut_view(*buf) =~= base + spec_nodes_bytes(view.take(i + 1)));
            }
            i = i + 1;
        }
        proof {
            assert(view.take(n as int) =~= view);
        }
    }

    /// Decode one frame from the front of the receive buffer and
    /// materialize it: the payloads of all its values are copied, in
    /// order, into one freshly allocated shared arena, and every leaf of
    /// the result is a zero-copy sub-view of that arena. The receive
    /// buffer may be reused or overwritten immediately afterwards.
    /// `Ok(None)` means more bytes are needed; a malformed stream is the
    /// error case, fatal to the connection.
    #[verifier::loop_isolation(false)]
    pub fn decode(buf: &[u8]) -> (r: Result<Option<(usize, RedisValue)>, ()>)
        ensures
            r matches Ok(Some(p)) ==> 0 < p.0 <= buf@.len() && dec_frame(buf@) == Decoded::Found(
                p.0 as int,
                bytes_nodes_view(p.1.nodes@),
            ),
            r == Ok::<Option<(usize, RedisValue)>, ()>(None) <==> dec_frame(
                buf@,
            ) is Incomplete,
            r == Err::<Option<(usize, RedisValue)>, ()>(()) <==> dec_frame(buf@) is Malformed,
    {
        match decode_values_from_slice(buf) {
            Err(DecodeError::Incomplete) => Ok(None),
            Err(DecodeError::Fail) => Err(()),
            Ok((consumed, values)) => {
                let blen = buf.len();
                proof {
                    match &values {
                        Values::Many(ns) => {
                            assert forall|k: int| 0 <= k < ns@.len() implies node_in_bounds(
                                #[trigger] ns@[k],
                                usize::MAX as int,
                            ) by {
                                assert(node_in_bounds(ns@[k], buf@.len() as int));
                            }
                        },
                        Values::One(v) => {
                            assert(node_in_bounds(Node::Leaf(*v), buf@.len() as int));
                        },
                    }
                }
                let n_bytes = values.byte_count();
                match values {
                    Values::One(value) => {
                        let owned: Value<Bytes> = match value {
                            Value::Nil => Value::Nil,
                            Value::SimpleString(p) => Value::SimpleString(
                                bytes_copy_from_slice(slice_subrange(buf, p.0, p.1)),
                            ),
                            Value::ErrorString(p) => Value::ErrorString(
                                bytes_copy_from_slice(slice_subrange(buf, p.0, p.1)),
                            ),
                            Value::IntegerString(p) => Value::IntegerString(
                                bytes_copy_from_slice(slice_subrange(buf, p.0, p.1)),
                            ),
                            Value::BulkString(p) => Value::BulkString(
                                bytes_copy_from_slice(slice_subrange(buf, p.0, p.1)),
                            ),
                        };
                        let mut nodes: Vec<Node<Bytes>> = Vec::new();
                        nodes.push(Node::Leaf(owned));
                        proof {
                            assert(bytes_nodes_view(nodes@) =~= seq![
                                bytes_node_view(nodes@[0]),
                            ]);
                            assert(bytes_nodes_view(nodes@) =~= vals_nodes(
                                buf@,
                                Values::One(value),
                            ));
                        }
                        Ok(Some((consumed, RedisValue { nodes })))
                    },
                    Values::Many(ns) => {
                        let mut arena_buf = bytes_mut_with_capacity(n_bytes);
                        let mut offs: Vec<Node<(usize, usize)>> = Vec::new();
                        let mut i: usize = 0;
                        let count = ns.len();
                        proof {
                            assert(nodes_len_sum(ns@, 0) == 0);
                        }
                        while i < count
                            invariant
                                i <= count,
                                count == ns@.len(),
                                offs@.len() == i,
                                bytes_mut_view(arena_buf).len() == nodes_len_sum(ns@, i as int),
                                forall|k: int|
                                    0 <= k < i ==> arena_node_ok(
                                        bytes_mut_view(arena_buf),
                                        buf@,
                                        #[trigger] offs@[k],
                                        ns@[k],
                                    ),
                            decreases count - i,
                        {
                            let ghost before = bytes_mut_view(arena_buf);
                            proof {
                                lemma_nodes_len_sum_mono(ns@, i + 1, ns@.len() as int);
                                lemma_nodes_len_sum_mono(ns@, 0, ns@.len() as int);
                            }
                            proof {
                                assert(node_in_bounds(ns@[i as int], buf@.len() as int));
                            }
                            let staged: Node<(usize, usize)> = match &ns[i] {
                                Node::Open(c) => Node::Open(*c),
                                Node::Close => Node::Close,
                                Node::Leaf(v) => {
                                    let rv = stage_value(&mut arena_buf, buf, v);
                                    Node::Leaf(rv)
                                },
                            };
                            proof {
                                let new_view = bytes_mut_view(arena_buf);
                                assert(new_view.subrange(0, before.len() as int) =~= before);
                                if ns@[i as int] is Leaf {
                                    assert(new_view.subrange(
                                        before.len() as int,
                                        new_view.len() as int,
                                    ) =~= payload_of(buf@, ns@[i as int]->Leaf_0));
                                }
                                assert(arena_node_ok(new_view, buf@, staged, ns@[i as int]));
                                assert forall|k: int| 0 <= k < i implies arena_node_ok(
                                    bytes_mut_view(arena_buf),
                                    buf@,
                                    #[trigger] offs@[k],
                                    ns@[k],
                                ) by {
                                    lemma_arena_node_stable(
                                        before,
                                        bytes_mut_view(arena_buf),
                                        buf@,
                                        offs@[k],
                                        ns@[k],
                                    );
                                }
                            }
                            offs.push(staged);
                            i = i + 1;
                        }
                        let arena = bytes_mut_freeze(arena_buf);
                        let mut nodes: Vec<Node<Bytes>> = Vec::new();
                        let mut j: usize = 0;
                        while j < offs.len()
                            invariant
                                j <= offs@.len(),
                                offs@.len() == ns@.len(),
                                nodes@.len() == j,
                                forall|k: int|
                                    0 <= k < offs@.len() ==> arena_node_ok(
                                        bytes_view(arena),
                                        buf@,
                                        #[trigger] offs@[k],
                                        ns@[k],
                                    ),
                                forall|k: int|
                                    0 <= k < j ==> bytes_node_view(#[trigger] nodes@[k])
                                        == node_of(buf@, ns@[k]),
                            decreases offs@.len() - j,
                        {
                            let owned: Node<Bytes> = match &offs[j] {
                                Node::Open(c) => Node::Open(*c),
                                Node::Close => Node::Close,
                                Node::Leaf(v) => Node::Leaf(
                                    match v {
                                        Value::Nil => Value::Nil,
                                        Value::SimpleString(p) => Value::SimpleString(
                                            bytes_slice(&arena, p.0, p.1),
                                        ),
                                        Value::ErrorString(p) => Value::ErrorString(
                                            bytes_slice(&arena, p.0, p.1),
                                        ),
                                        Value::IntegerString(p) => Value::IntegerString(
                                            bytes_slice(&arena, p.0, p.1),
                                        ),
                                        Value::BulkString(p) => Value::BulkString(
                                            bytes_slice(&arena, p.0, p.1),
                                        ),
                                    },
                                ),
                            };
                            nodes.push(owned);
                            j = j + 1;
                        }
                        proof {
                            assert(bytes_nodes_view(nodes@) =~= nodes_of(buf@, ns@));
                        }
                        Ok(Some((consumed, RedisValue { nodes })))
                    },
                }
            },
        }
    }
}

/// A staged node points at the part of the arena that now holds exactly
/// the bytes its original pointed at in the receive buffer.
pub open spec fn arena_node_ok(
    arena: Seq<u8>,
    input: Seq<u8>,
    staged: Node<(usize, usize)>,
    orig: Node<(usize, usize)>,
) -> bool {
    match orig {
        Node::Open(c) => staged == Node::Open::<(usize, usize)>(c),
        Node::Close => staged is Close,
        Node::Leaf(v) => match staged {
            Node::Leaf(w) => match v {
                Value::Nil => w is Nil,
                Value::SimpleString(p) => w matches Value::SimpleString(q) && q.0 <= q.1
                    <= arena.len() && arena.subrange(q.0 as int, q.1 as int) == input.subrange(
                    p.0 as int,
                    p.1 as int,
                ),
                Value::ErrorString(p) => w matches Value::ErrorString(q) && q.0 <= q.1
                    <= arena.len() && arena.subrange(q.0 as int, q.1 as int) == input.subrange(
                    p.0 as int,
                    p.1 as int,
                ),
                Value::IntegerString(p) => w matches Value::IntegerString(q) && q.0 <= q.1
                    <= arena.len() && arena.subrange(q.0 as int, q.1 as int) == input.subrange(
                    p.0 as int,
                    p.1 as int,
                ),
                Value::BulkString(p) => w matches Value::BulkString(q) && q.0 <= q.1
                    <= arena.len() && arena.subrange(q.0 as int, q.1 as int) == input.subrange(
                    p.0 as int,
                    p.1 as int,
                ),
            },
            _ => false,
        },
    }
}

/// Growing the arena at its end leaves every staged node's bytes alone.
proof fn lemma_arena_node_stable(
    old_arena: Seq<u8>,
    new_arena: Seq<u8>,
    input: Seq<u8>,
    staged: Node<(usize, usize)>,
    orig: Node<(usize, usize)>,
)
    requires
        arena_node_ok(old_arena, input, staged, orig),
        old_arena.len() <= new_arena.len(),
        new_arena.subrange(0, old_arena.len() as int) == old_arena,
    ensures
        arena_node_ok(new_arena, input, staged, orig),
{
    match orig {
        Node::Leaf(v) => {
            match staged {
                Node::Leaf(w) => {
                    match w {
                        Value::Nil => {},
                        Value::SimpleString(q) => {
                            assert(new_arena.subrange(q.0 as int, q.1 as int) =~= old_arena.subrange(q.0 as int, q.1 as int));
                        },
                        Value::ErrorString(q) => {
                            assert(new_arena.subrange(q.0 as int, q.1 as int) =~= old_arena.subrange(q.0 as int, q.1 as int));
                        },
                        Value::IntegerString(q) => {
                            assert(new_arena.subrange(q.0 as int, q.1 as int) =~= old_arena.subrange(q.0 as int, q.1 as int));
                        },
                        Value::BulkString(q) => {
                            assert(new_arena.subrange(q.0 as int, q.1 as int) =~= old_arena.subrange(q.0 as int, q.1 as int));
                        },
                    }
                },
                _ => {},
            }
        },
        _ => {},
    }
}

} // verus!
