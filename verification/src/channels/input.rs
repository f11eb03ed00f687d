//! The input channel: touch and keys from the car.
//!
//! The car asks to bind keys, and every request is granted. Events are taken
//! without an answer.
use crate::channel_id::ChannelId;
use crate::channels;
use crate::channels::{HandleError, Outbound, OutboundMessage};
use crate::proto::enums;
use crate::proto::message;
use crate::proto::message::Message;
use crate::proto::messages::{BindingRequest, BindingResponse};
use vstd::prelude::*;

verus! {

pub const MSG_INPUT_EVENT_INDICATION: u16 = 0x8001;

pub const MSG_BINDING_REQUEST: u16 = 0x8002;

pub const MSG_BINDING_RESPONSE: u16 = 0x8003;

/// What is answered on the input channel.
pub open spec fn reply(msg_id: u16, payload: Seq<u8>) -> Result<Seq<Outbound>, HandleError> {
    if msg_id == MSG_BINDING_REQUEST {
        match message::message_of::<BindingRequest>(payload) {
            Some(_) => Ok(
                seq![
                    channels::said_on::<BindingResponse>(
                        1,
                        MSG_BINDING_RESPONSE,
                        BindingResponse { status: enums::STATUS_OK },
                    ),
                ],
            ),
            None => Err(HandleError::BindingRequest),
        }
    } else {
        Ok(Seq::empty())
    }
}

/// Handles a message of the input channel; `payload` is what follows its number.
pub fn handle(msg_id: u16, payload: &[u8]) -> (r: Result<Vec<OutboundMessage>, HandleError>)
    ensures
        channels::answers(r, reply(msg_id, payload@)),
{
    if msg_id == MSG_BINDING_REQUEST {
        match BindingRequest::decode(payload) {
            Ok(_) => {
                let resp = BindingResponse { status: enums::STATUS_OK };
                Ok(
                    channels::single(
                        channels::encode_outbound(
                            ChannelId::Input.code(),
                            MSG_BINDING_RESPONSE,
                            &resp,
                        ),
                    ),
                )
            },
            Err(_) => Err(HandleError::BindingRequest),
        }
    } else {
        Ok(channels::silence())
    }
}

} // verus!
