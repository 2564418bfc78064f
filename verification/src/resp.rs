//! The message model for whole replies: single-line values whose text is
//! guaranteed free of line terminators (enforced at construction, not at
//! encoding), bulk strings, the null reply, and arrays, together with
//! their serialization to wire bytes.

use crate::value::{crlf, dec_digits};
use vstd::prelude::*;
use vstd::slice::slice_index_get;

verus! {

#[verifier::external_type_specification]
#[verifier::external_body]
pub struct ExIoError(std::io::Error);

/// What can go wrong handling a message: bytes that may not appear in a
/// single-line value, unparsable content, a value of the wrong kind, or
/// a transport failure carried through from the reader.
#[derive(Debug)]
pub enum ProtocolError {
    BadBytes,
    ParseError,
    TypeError,
    IoError(std::io::Error),
}

/// Whether a byte may appear inside a single-line value.
pub open spec fn line_safe(b: u8) -> bool {
    b != 13 && b != 10
}

/// Bytes guaranteed free of CR and LF, fit for a single-line value; the
/// check happens once, when the value is built.
#[derive(Debug, Eq, PartialEq)]
pub struct SimpleBytes {
    bytes: Vec<u8>,
}

impl View for SimpleBytes {
    type V = Seq<u8>;

    closed spec fn view(&self) -> Seq<u8> {
        self.bytes@
    }
}

impl SimpleBytes {
    /// Accept the bytes only when none of them is CR or LF.
    pub fn from_bytes(bytes: Vec<u8>) -> (r: Result<Self, ProtocolError>)
        ensures
            r matches Ok(sb) ==> sb@ == bytes@ && forall|i: int|
                0 <= i < bytes@.len() ==> line_safe(#[trigger] bytes@[i]),
            r is Err <==> exists|i: int| 0 <= i < bytes@.len() && !line_safe(#[trigger] bytes@[i]),
            r is Err ==> (r matches Err(e) && e is BadBytes),
    {
        let n = bytes.len();
        let mut i: usize = 0;
        while i < n
            invariant
                i <= n,
                n == bytes@.len(),
                forall|j: int| 0 <= j < i ==> line_safe(#[trigger] bytes@[j]),
            decreases n - i,
        {
            let b = bytes[i];
            if b == 13 || b == 10 {
                return Err(ProtocolError::BadBytes);
            }
            i = i + 1;
        }
        Ok(SimpleBytes { bytes })
    }

    /// A borrow of the checked bytes.
    pub fn as_slice(&self) -> (r: &[u8])
        ensures
            r@ == self@,
    {
        self.bytes.as_slice()
    }

    /// The checked bytes, given up.
    pub fn into_vec(self) -> (r: Vec<u8>)
        ensures
            r@ == self@,
    {
        self.bytes
    }
}

/// An owned byte string as the store hands it out.
#[derive(Debug, Eq, PartialEq, Hash)]
pub struct StringValue(pub Vec<u8>);

/// A whole reply message.
#[derive(Debug, Eq, PartialEq)]
pub enum RespProtocol {
    SimpleString(SimpleBytes),
    Error(SimpleBytes),
    Integer(SimpleBytes),
    Null,
    BulkString(Vec<u8>),
    Array(Vec<RespProtocol>),
}

/// The wire bytes a message encodes to.
pub open spec fn spec_protocol_bytes(p: RespProtocol) -> Seq<u8>
    decreases p,
{
    match p {
        RespProtocol::SimpleString(s) => seq![43u8] + s@ + crlf(),
        RespProtocol::Error(s) => seq![45u8] + s@ + crlf(),
        RespProtocol::Integer(s) => seq![58u8] + s@ + crlf(),
        RespProtocol::Null => seq![36u8, 45u8, 49u8, 13u8, 10u8],
        RespProtocol::BulkString(b) => seq![36u8] + dec_digits(b@.len() as int) + crlf() + b@
            + crlf(),
        RespProtocol::Array(xs) => seq![42u8] + dec_digits(xs@.len() as int) + crlf()
            + spec_protocol_list(xs@),
    }
}

/// The concatenated wire bytes of a list of messages.
pub open spec fn spec_protocol_list(ps: Seq<RespProtocol>) -> Seq<u8>
    decreases ps,
{
    if ps.len() == 0 {
        Seq::empty()
    } else {
        spec_protocol_bytes(ps[0]) + spec_protocol_list(ps.drop_first())
    }
}

/// One more element taken from the front appends that element's bytes.
proof fn lemma_protocol_list_take(ps: Seq<RespProtocol>, i: int)
    requires
        0 <= i < ps.len(),
    ensures
        spec_protocol_list(ps.take(i + 1)) == spec_protocol_list(ps.take(i))
            + spec_protocol_bytes(ps[i]),
    decreases ps.len(),
{
    lemma_protocol_list_snoc(ps.take(i), ps[i]);
    assert(ps.take(i + 1) =~= ps.take(i).push(ps[i]));
}

/// Appending a message appends its bytes.
proof fn lemma_protocol_list_snoc(ps: Seq<RespProtocol>, p: RespProtocol)
    ensures
        spec_protocol_list(ps.push(p)) == spec_protocol_list(ps) + spec_protocol_bytes(p),
    decreases ps.len(),
{
    if ps.len() == 0 {
        assert(ps =~= Seq::<RespProtocol>::empty());
        assert(ps.push(p).drop_first() =~= Seq::<RespProtocol>::empty());
        assert(spec_protocol_list(Seq::<RespProtocol>::empty()) == Seq::<u8>::empty());
        assert(spec_protocol_list(ps.push(p)) =~= spec_protocol_list(ps) + spec_protocol_bytes(
            p,
        ));
    } else {
        assert(ps.push(p).drop_first() =~= ps.drop_first().push(p));
        lemma_protocol_list_snoc(ps.drop_first(), p);
        assert(ps.push(p)[0] == ps[0]);
        assert(spec_protocol_list(ps.push(p)) == spec_protocol_bytes(ps[0]) + (
        spec_protocol_list(ps.drop_first()) + spec_protocol_bytes(p)));
        assert(spec_protocol_list(ps) == spec_protocol_bytes(ps[0]) + spec_protocol_list(
            ps.drop_first(),
        ));
        assert(spec_protocol_list(ps.push(p)) =~= spec_protocol_list(ps) + spec_protocol_bytes(
            p,
        ));
    }
}

/// The text of the error reply for each kind of protocol failure.
pub open spec fn spec_error_text(e: ProtocolError) -> Seq<u8> {
    match e {
        ProtocolError::BadBytes => seq![66u8, 97u8, 100u8, 66u8, 121u8, 116u8, 101u8, 115u8],
        ProtocolError::ParseError => seq![
            80u8,
            97u8,
            114u8,
            115u8,
            101u8,
            69u8,
            114u8,
            114u8,
            111u8,
            114u8,
        ],
        ProtocolError::TypeError => seq![
            84u8,
            121u8,
            112u8,
            101u8,
            69u8,
            114u8,
            114u8,
            111u8,
            114u8,
        ],
        ProtocolError::IoError(_) => seq![73u8, 111u8, 69u8, 114u8, 114u8, 111u8, 114u8],
    }
}

/// A rendered integer never contains a line terminator: its bytes are
/// decimal digits, possibly after a minus sign.
proof fn lemma_int_digits_line_safe(n: int)
    ensures
        forall|i: int|
            0 <= i < crate::value::spec_int_digits(n).len() ==> line_safe(
                #[trigger] crate::value::spec_int_digits(n)[i],
            ),
{
    if n < 0 {
        crate::decode::lemma_digits_roundtrip(-n);
    } else {
        crate::decode::lemma_digits_roundtrip(n);
    }
}

impl RespProtocol {
    /// The fixed acknowledgement reply.
    pub fn ok() -> (r: Self)
        ensures
            r matches RespProtocol::SimpleString(s) && s@ =~= seq![79u8, 107u8],
    {
        let mut bytes: Vec<u8> = Vec::new();
        bytes.push(79);
        bytes.push(107);
        match SimpleBytes::from_bytes(bytes) {
            Ok(sb) => RespProtocol::SimpleString(sb),
            Err(_) => RespProtocol::Null,
        }
    }

    /// An integer reply, rendered to its decimal text.
    pub fn from_integer(n: i64) -> (r: Self)
        ensures
            r matches RespProtocol::Integer(s) && s@ == crate::value::spec_int_digits(n as int),
    {
        let number = crate::value::render_i64(n);
        proof {
            lemma_int_digits_line_safe(n as int);
        }
        match SimpleBytes::from_bytes(number) {
            Ok(sb) => RespProtocol::Integer(sb),
            Err(_) => RespProtocol::Null,
        }
    }

    /// A borrow of the text of a single-line or bulk value; other kinds
    /// of reply have no byte content to hand out.
    pub fn as_bytes(&self) -> (r: Result<&[u8], ProtocolError>)
        ensures
            match *self {
                RespProtocol::SimpleString(ref s) => r matches Ok(b) && b@ == s@,
                RespProtocol::BulkString(ref b2) => r matches Ok(b) && b@ == b2@,
                _ => r matches Err(e) && e is TypeError,
            },
    {
        match self {
            RespProtocol::SimpleString(bytes) => Ok(bytes.as_slice()),
            RespProtocol::BulkString(bytes) => Ok(bytes.as_slice()),
            _ => Err(ProtocolError::TypeError),
        }
    }

    /// The error reply naming the kind of protocol failure.
    pub fn from_protocol_error(e: ProtocolError) -> (r: Self)
        ensures
            r matches RespProtocol::Error(s) && s@ == spec_error_text(e),
    {
        let text: Vec<u8> = match e {
            // the ASCII bytes of "BadBytes", "ParseError", "TypeError",
            // "IoError"
            ProtocolError::BadBytes => vec![66, 97, 100, 66, 121, 116, 101, 115],
            ProtocolError::ParseError => vec![80, 97, 114, 115, 101, 69, 114, 114, 111, 114],
            ProtocolError::TypeError => vec![84, 121, 112, 101, 69, 114, 114, 111, 114],
            ProtocolError::IoError(_) => vec![73, 111, 69, 114, 114, 111, 114],
        };
        match SimpleBytes::from_bytes(text) {
            Ok(sb) => RespProtocol::Error(sb),
            Err(_) => RespProtocol::Error(
                SimpleBytes { bytes: Vec::new() },
            ),
        }
    }

    /// The byte content of a single-line or bulk value, given up; other
    /// kinds of reply carry none.
    pub fn try_into_string_value(self) -> (r: Result<StringValue, ProtocolError>)
        ensures
            match self {
                RespProtocol::SimpleString(s) => r matches Ok(v) && v.0@ == s@,
                RespProtocol::BulkString(b) => r matches Ok(v) && v.0@ == b@,
                _ => r matches Err(e) && e is TypeError,
            },
    {
        match self {
            RespProtocol::SimpleString(bytes) => Ok(StringValue(bytes.into_vec())),
            RespProtocol::BulkString(bytes) => Ok(StringValue(bytes)),
            _ => Err(ProtocolError::TypeError),
        }
    }

    /// Append this message's exact wire bytes to the output.
    fn encode_into(&self, out: &mut Vec<u8>)
        ensures
            final (out)@ == old(out)@ + spec_protocol_bytes(*self),
        decreases *self,
    {
        let ghost base = out@;
        match self {
            RespProtocol::SimpleString(s) => {
                out.push(43);
                append_bytes(out, s.as_slice());
                out.push(13);
                out.push(10);
                proof {
                    assert(out@ =~= base + spec_protocol_bytes(*self));
                }
            },
            RespProtocol::Error(s) => {
                out.push(45);
                append_bytes(out, s.as_slice());
                out.push(13);
                out.push(10);
                proof {
                    assert(out@ =~= base + spec_protocol_bytes(*self));
                }
            },
            RespProtocol::Integer(s) => {
                out.push(58);
                append_bytes(out, s.as_slice());
                out.push(13);
                out.push(10);
                proof {
                    assert(out@ =~= base + spec_protocol_bytes(*self));
                }
            },
            RespProtocol::Null => {
                out.push(36);
                out.push(45);
                out.push(49);
                out.push(13);
                out.push(10);
                proof {
                    assert(out@ =~= base + spec_protocol_bytes(*self));
                }
            },
            RespProtocol::BulkString(b) => {
                out.push(36);
                let digits = crate::value::render_u64(b.len() as u64);
                append_bytes(out, digits.as_slice());
                out.push(13);
                out.push(10);
                append_bytes(out, b.as_slice());
                out.push(13);
                out.push(10);
                proof {
                    assert(out@ =~= base + spec_protocol_bytes(*self));
                }
            },
            RespProtocol::Array(xs) => {
                out.push(42);
                let digits = crate::value::render_u64(xs.len() as u64);
                append_bytes(out, digits.as_slice());
                out.push(13);
                out.push(10);
                let ghost header = out@;
                let n = xs.len();
                let mut i: usize = 0;
                proof {
                    assert(xs@.take(0) =~= Seq::<RespProtocol>::empty());
                    assert(spec_protocol_list(Seq::<RespProtocol>::empty())
                        == Seq::<u8>::empty());
                    assert(header + spec_protocol_list(xs@.take(0)) =~= header);
                }
                while i < n
                    invariant
                        i <= n,
                        n == xs@.len(),
                        *self == RespProtocol::Array(*xs),
                        out@ == header + spec_protocol_list(xs@.take(i as int)),
                        header == base + seq![42u8] + dec_digits(xs@.len() as int) + crlf(),
                    decreases n - i,
                {
                    proof {
                        lemma_protocol_list_take(xs@, i as int);
                        assert(decreases_to!(*self => (*self)->Array_0));
                        assert(decreases_to!((*self)->Array_0 => (*self)->Array_0@));
                        assert(decreases_to!((*self)->Array_0@ => (*self)->Array_0@[i as int]));
                        assert(decreases_to!(*self => xs@[i as int]));
                    }
                    xs[i].encode_into(out);
                    i = i + 1;
                }
                proof {
                    assert(xs@.take(n as int) =~= xs@);
                    assert(out@ =~= base + spec_protocol_bytes(*self));
                }
            },
        }
    }

    /// This message's exact wire bytes.
    pub fn into_bytes(self) -> (r: Vec<u8>)
        ensures
            r@ == spec_protocol_bytes(self),
    {
        let mut out: Vec<u8> = Vec::new();
        self.encode_into(&mut out);
        proof {
            assert(Seq::<u8>::empty() + spec_protocol_bytes(self) =~= spec_protocol_bytes(
                self,
            ));
        }
        out
    }
}

/// Append all of a slice's bytes to a vector.
fn append_bytes(out: &mut Vec<u8>, s: &[u8])
    ensures
        final (out)@ == old(out)@ + s@,
{
    let n = s.len();
    let mut i: usize = 0;
    proof {
        assert(out@ =~= old(out)@ + s@.take(0));
    }
    while i < n
        invariant
            i <= n,
            n == s@.len(),
            out@ == old(out)@ + s@.take(i as int),
        decreases n - i,
    {
        out.push(*slice_index_get(s, i));
        proof {
            assert(old(out)@ + s@.take(i as int) + seq![s@[i as int]] =~= old(out)@ + s@.take(
                i + 1,
            ));
        }
        i = i + 1;
    }
    proof {
        assert(s@.take(n as int) =~= s@);
    }
}

} // verus!
