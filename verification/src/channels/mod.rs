//! What is answered to a message, channel by channel.
//!
//! A handler takes a message's number and body and gives the messages to send
//! back. It does no input or output itself.
use crate::buffers;
use crate::proto::message;
use crate::proto::message::Message;
use bytes::Bytes;
use vstd::prelude::*;

pub mod audio;
pub mod input;
pub mod nav;
pub mod sensor;
pub mod video;

verus! {

/// A message to send: its channel, its number and its body.
#[derive(Debug)]
pub struct OutboundMessage {
    pub channel: u8,
    pub message_id: u16,
    pub payload: Bytes,
}

/// What a message to send says.
#[verifier::ext_equal]
pub struct Outbound {
    pub channel: u8,
    pub message_id: u16,
    pub payload: Seq<u8>,
}

impl View for OutboundMessage {
    type V = Outbound;

    open spec fn view(&self) -> Outbound {
        Outbound {
            channel: self.channel,
            message_id: self.message_id,
            payload: buffers::bytes_of(self.payload),
        }
    }
}

impl Clone for OutboundMessage {
    fn clone(&self) -> (r: Self)
        ensures
            r@ == self@,
    {
        OutboundMessage {
            channel: self.channel,
            message_id: self.message_id,
            payload: self.payload.clone(),
        }
    }
}

impl OutboundMessage {
    pub fn new(channel: u8, message_id: u16, payload: Bytes) -> (r: Self)
        ensures
            r@ == (Outbound { channel, message_id, payload: buffers::bytes_of(payload) }),
    {
        OutboundMessage { channel, message_id, payload }
    }

    /// A message whose body is in a vector.
    pub fn of_vec(channel: u8, message_id: u16, payload: Vec<u8>) -> (r: Self)
        ensures
            r@ == (Outbound { channel, message_id, payload: payload@ }),
    {
        OutboundMessage::new(channel, message_id, buffers::from_vec(payload))
    }
}

/// What a flight of messages says.
pub open spec fn flight(ms: Seq<OutboundMessage>) -> Seq<Outbound> {
    Seq::new(ms.len(), |i: int| ms[i]@)
}

/// Why a message could not be handled.
#[derive(Debug, Clone, Copy, PartialEq, Eq, Structural)]
pub enum HandleError {
    /// The body is not a `BindingRequest`.
    BindingRequest,
    /// The body is not a `SensorStartRequest`.
    SensorStartRequest,
    /// The body is not a `SensorEventIndication`.
    SensorEventIndication,
    /// The body is not an `AVChannelSetupRequest`.
    SetupRequest,
    /// The body is not an `AVChannelStartIndication`.
    StartIndication,
    /// The body is not an `AVInputOpenRequest`.
    InputOpenRequest,
    /// The body is not a `ChannelOpenResponse`.
    ChannelOpenResponse,
    /// The body is not a `PingRequest`.
    PingRequest,
    /// The body is not an `AudioFocusRequest`.
    AudioFocusRequest,
    /// The body is not a `ChannelOpenRequest`.
    ChannelOpenRequest,
    /// A frame of sound is too short for its timestamp.
    TimestampMissing,
    /// A frame is too short for a message's number.
    MessageIdMissing,
}

/// Whether a handler's result is the one expected.
pub open spec fn answers(
    r: Result<Vec<OutboundMessage>, HandleError>,
    expected: Result<Seq<Outbound>, HandleError>,
) -> bool {
    match expected {
        Ok(ms) => r matches Ok(v) && flight(v@) == ms,
        Err(e) => r matches Err(x) && x == e,
    }
}

/// What a message with this body says.
pub open spec fn said_on<M: message::Schema>(channel: u8, message_id: u16, v: M::V) -> Outbound {
    Outbound { channel, message_id, payload: message::bytes_of::<M>(v) }
}

/// A message with this body.
pub fn encode_outbound<M: Message>(channel: u8, msg_id: u16, msg: &M) -> (r: OutboundMessage)
    ensures
        r@ == said_on::<M>(channel, msg_id, msg@),
{
    OutboundMessage::of_vec(channel, msg_id, msg.encode_to_vec())
}

/// No messages.
pub fn silence() -> (r: Vec<OutboundMessage>)
    ensures
        flight(r@) == Seq::<Outbound>::empty(),
{
    let out: Vec<OutboundMessage> = Vec::new();
    assert(flight(out@) =~= Seq::<Outbound>::empty());
    out
}

/// One message.
pub fn single(m: OutboundMessage) -> (r: Vec<OutboundMessage>)
    ensures
        flight(r@) == seq![m@],
{
    let mut out: Vec<OutboundMessage> = Vec::new();
    out.push(m);
    assert(flight(out@) =~= seq![m@]);
    out
}

} // verus!
