//! One stream carries exactly one envelope: the stream's end is the message's
//! end, so no length prefix is needed. A reader takes every byte up to the
//! end of the stream, within a bound, and decodes them.
use vstd::prelude::*;
use crate::codec::{decode_spec, DecodeError};
use crate::message::{EnvelopeView, Message};

verus! {

/// Largest message on a control-plane link, in bytes.
pub const CONTROL_FRAME_LIMIT: usize = 8192;

/// Largest message on a link that carries payloads, in bytes.
pub const PAYLOAD_FRAME_LIMIT: usize = 1048576;

/// Why one inbound stream gave no envelope. It concerns that stream alone.
#[derive(Clone, Copy, Debug, PartialEq, Eq, Structural)]
pub enum ReceiveError {
    /// The stream held more bytes than the bound allows.
    Capacity,
    /// The bytes are no envelope.
    Decoding(DecodeError),
}

/// What reading a stream's bytes against `limit` gives.
pub open spec fn frame_spec(data: Seq<u8>, limit: usize) -> Result<EnvelopeView, ReceiveError> {
    if data.len() > limit {
        Err(ReceiveError::Capacity)
    } else {
        match decode_spec(data) {
            Ok(e) => Ok(e),
            Err(d) => Err(ReceiveError::Decoding(d)),
        }
    }
}

/// Reads the envelope that one inbound stream carried.
pub fn receive_frame(data: &[u8], limit: usize) -> (r: Result<Message, ReceiveError>)
    ensures
        match r {
            Ok(m) => frame_spec(data@, limit) == Ok::<EnvelopeView, ReceiveError>(m@),
            Err(e) => frame_spec(data@, limit) == Err::<EnvelopeView, ReceiveError>(e),
        },
{
    if data.len() > limit {
        return Err(ReceiveError::Capacity);
    }
    match Message::from_bytes(data) {
        Ok(m) => Ok(m),
        Err(d) => Err(ReceiveError::Decoding(d)),
    }
}

} // verus!
