//! The framing layer a connection drives: pull one complete frame off
//! the accumulating receive buffer, dropping exactly the bytes it
//! occupied, and push a reply frame's bytes onto the send buffer. The
//! binding of these two steps to a socket and an event loop lives
//! outside the library.

use crate::arena::{bytes_mut_advance, bytes_mut_as_slice, bytes_mut_view};
use crate::decode::Decoded;
use crate::redis_value::{bytes_nodes_view, dec_frame, spec_nodes_bytes, RedisValue};
use bytes::BytesMut;
use vstd::prelude::*;

verus! {

/// The codec a connection runs: decode on read, encode on write.
pub struct RedisCodec;

/// The marker for the pipelined server protocol built on the codec.
pub struct RedisProto;

impl RedisCodec {
    /// Try to pull one frame off the receive buffer. When a whole frame
    /// has arrived, exactly its bytes are dropped from the front and
    /// the materialized frame is handed out; otherwise the buffer is
    /// left alone, to be retried after more bytes arrive. Malformed
    /// input is the error case, fatal to the connection.
    pub fn decode(&mut self, buf: &mut BytesMut) -> (r: Result<Option<RedisValue>, ()>)
        ensures
            r matches Ok(Some(rv)) ==> (dec_frame(bytes_mut_view(*old(buf))) matches
                Decoded::Found(c, nodes) && nodes == bytes_nodes_view(rv.nodes@)
                && bytes_mut_view(*final (buf)) == bytes_mut_view(*old(buf)).skip(c)),
            r == Ok::<Option<RedisValue>, ()>(None) <==> dec_frame(
                bytes_mut_view(*old(buf)),
            ) is Incomplete,
            r == Ok::<Option<RedisValue>, ()>(None) ==> bytes_mut_view(*final (buf))
                == bytes_mut_view(*old(buf)),
            r is Err <==> dec_frame(bytes_mut_view(*old(buf))) is Malformed,
    {
        let outcome = RedisValue::decode(bytes_mut_as_slice(buf));
        match outcome {
            Ok(Some((consumed, rv))) => {
                bytes_mut_advance(buf, consumed);
                Ok(Some(rv))
            },
            Ok(None) => Ok(None),
            Err(e) => {
                // there is only one value of the unit error, so the
                // library's verdict carries over to this one
                proof {
                    assert(e == ());
                }
                Err(e)
            },
        }
    }

    /// Append one reply frame's exact wire bytes to the send buffer.
    pub fn encode(&mut self, msg: RedisValue, buf: &mut BytesMut)
        requires
            spec_nodes_bytes(bytes_nodes_view(msg.nodes@)).len() <= usize::MAX,
        ensures
            bytes_mut_view(*final (buf)) == bytes_mut_view(*old(buf)) + spec_nodes_bytes(
                bytes_nodes_view(msg.nodes@),
            ),
    {
        msg.encode(buf)
    }
}

} // verus!
