//! The video channel: pictures to the car.
//!
//! The car sets the channel up and starts and stops the stream; the frames in
//! between go out as [`pipeline`] says.
use crate::channels;
use crate::channels::video::pipeline::{StreamStart, VideoPipeline};
use crate::channels::{HandleError, Outbound, OutboundMessage};
use crate::proto::enums;
use crate::proto::message;
use crate::proto::message::Message;
use crate::proto::messages::{
    AvChannelSetupRequest, AvChannelSetupResponse, AvChannelSetupResponseView,
    AvChannelStartIndication, AvMediaAckIndication,
};
use vstd::prelude::*;

pub use crate::channels::audio::{
    MSG_AV_INPUT_OPEN_REQUEST, MSG_AV_INPUT_OPEN_RESPONSE, MSG_AV_MEDIA_ACK_INDICATION,
    MSG_AV_MEDIA_INDICATION, MSG_SETUP_REQUEST, MSG_SETUP_RESPONSE, MSG_START_INDICATION,
    MSG_STOP_INDICATION,
};

pub mod nal;
pub mod pipeline;
pub mod source;

verus! {

/// How many frames may be unacknowledged.
pub const VIDEO_MAX_UNACKED: u32 = 10;

/// What is to be done about a message of the video channel.
#[derive(Debug)]
pub struct VideoStep {
    /// The messages to send back.
    pub replies: Vec<OutboundMessage>,
    /// A streamer to start.
    pub start: Option<StreamStart>,
}

/// What becomes of the stream and what is answered on the video channel.
pub open spec fn shown(p: VideoPipeline, channel: u8, msg_id: u16, payload: Seq<u8>) -> (
    VideoPipeline,
    Result<(Seq<Outbound>, Option<StreamStart>), HandleError>,
) {
    if msg_id == MSG_SETUP_REQUEST {
        match message::message_of::<AvChannelSetupRequest>(payload) {
            Some(req) => (
                p,
                Ok(
                    (
                        seq![
                            channels::said_on::<AvChannelSetupResponse>(
                                channel,
                                MSG_SETUP_RESPONSE,
                                AvChannelSetupResponseView {
                                    media_status: enums::AV_CHANNEL_SETUP_STATUS_OK,
                                    max_unacked: VIDEO_MAX_UNACKED,
                                    configs: seq![req.config_index],
                                },
                            ),
                        ],
                        None,
                    ),
                ),
            ),
            None => (p, Err(HandleError::SetupRequest)),
        }
    } else if msg_id == MSG_START_INDICATION {
        match message::message_of::<AvChannelStartIndication>(payload) {
            Some(ind) => {
                let after = pipeline::started(p, ind.session);
                let start = StreamStart {
                    generation: after.generation,
                    profile: pipeline::profile_of(ind.config),
                };
                (after, Ok((Seq::empty(), Some(start))))
            },
            None => (p, Err(HandleError::StartIndication)),
        }
    } else if msg_id == MSG_STOP_INDICATION {
        (pipeline::stopped(p), Ok((Seq::empty(), None)))
    } else if msg_id == MSG_AV_MEDIA_ACK_INDICATION {
        match message::message_of::<AvMediaAckIndication>(payload) {
            Some(_) => (pipeline::acked(p), Ok((Seq::empty(), None))),
            None => (p, Ok((Seq::empty(), None))),
        }
    } else {
        (p, Ok((Seq::empty(), None)))
    }
}

/// Whether a handler's result is the one expected.
pub open spec fn video_answers(
    r: Result<VideoStep, HandleError>,
    expected: Result<(Seq<Outbound>, Option<StreamStart>), HandleError>,
) -> bool {
    match expected {
        Ok((replies, start)) => r matches Ok(step) && channels::flight(step.replies@) == replies
            && step.start == start,
        Err(e) => r matches Err(x) && x == e,
    }
}

/// Handles a message of the video channel; `payload` is what follows its number.
pub fn handle(channel: u8, msg_id: u16, payload: &[u8], p: &mut VideoPipeline) -> (r: Result<
    VideoStep,
    HandleError,
>)
    ensures
        *final(p) == shown(*old(p), channel, msg_id, payload@).0,
        video_answers(r, shown(*old(p), channel, msg_id, payload@).1),
{
    match msg_id {
        MSG_SETUP_REQUEST => match AvChannelSetupRequest::decode(payload) {
            Ok(req) => {
                let configs: Vec<u32> = vec![req.config_index];
                assert(configs@ =~= seq![req.config_index]);
                let resp = AvChannelSetupResponse {
                    media_status: enums::AV_CHANNEL_SETUP_STATUS_OK,
                    max_unacked: VIDEO_MAX_UNACKED,
                    configs,
                };
                let reply: OutboundMessage = channels::encode_outbound(
                    channel,
                    MSG_SETUP_RESPONSE,
                    &resp,
                );
                Ok(VideoStep { replies: channels::single(reply), start: None })
            },
            Err(_) => Err(HandleError::SetupRequest),
        },
        MSG_START_INDICATION => match AvChannelStartIndication::decode(payload) {
            Ok(ind) => {
                let start: StreamStart = p.start(ind.session, ind.config);
                Ok(VideoStep { replies: channels::silence(), start: Some(start) })
            },
            Err(_) => Err(HandleError::StartIndication),
        },
        MSG_STOP_INDICATION => {
            p.stop();
            Ok(VideoStep { replies: channels::silence(), start: None })
        },
        MSG_AV_MEDIA_ACK_INDICATION => {
            if AvMediaAckIndication::decode(payload).is_ok() {
                p.on_media_ack();
            }
            Ok(VideoStep { replies: channels::silence(), start: None })
        },
        _ => Ok(VideoStep { replies: channels::silence(), start: None }),
    }
}

/// A request to set the channel up that can be read is granted: the answer, on the same
/// channel, says that all is well, allows ten frames in flight and takes the format that
/// the car named. The stream stays as it is.
pub proof fn lemma_setup_is_granted(p: VideoPipeline, channel: u8, payload: Seq<u8>)
    ensures
        shown(p, channel, 0x8000, payload).0 == p,
        match message::message_of::<AvChannelSetupRequest>(payload) {
            Some(req) => shown(p, channel, 0x8000, payload).1 == Ok::<
                (Seq<Outbound>, Option<StreamStart>),
                HandleError,
            >(
                (
                    seq![
                        channels::said_on::<AvChannelSetupResponse>(
                            channel,
                            0x8003,
                            AvChannelSetupResponseView {
                                media_status: 2,
                                max_unacked: 10,
                                configs: seq![req.config_index],
                            },
                        ),
                    ],
                    None,
                ),
            ),
            None => shown(p, channel, 0x8000, payload).1 is Err,
        },
{
}

/// A start that can be read starts a streamer, of the generation that is then current:
/// it may send at once, and no other streamer goes on. One that cannot be read changes
/// nothing.
pub proof fn lemma_start_starts(p: VideoPipeline, channel: u8, payload: Seq<u8>, other: u64)
    ensures
        ({
            let (after, answer) = shown(p, channel, 0x8001, payload);
            match message::message_of::<AvChannelStartIndication>(payload) {
                Some(ind) => {
                    &&& answer matches Ok((replies, Some(start))) && replies.len() == 0 && {
                        &&& start.generation == after.generation
                        &&& start.generation != p.generation
                        &&& start.profile is P1080p30 <==> ind.config == 0
                        &&& p.max_in_flight > 0 ==> pipeline::next_step(
                            after,
                            start.generation,
                        ) is Send
                        &&& other != start.generation ==> pipeline::next_step(after, other) is Exit
                    }
                    &&& after.session == ind.session
                    &&& after.wire == p.wire
                    &&& after.max_in_flight == p.max_in_flight
                },
                None => after == p && answer is Err,
            }
        }),
{
}

/// A stop ends every streamer; an acknowledgement that can be read makes room for one
/// frame; and no other message but a start touches the stream. None of these is
/// answered.
pub proof fn lemma_stop_and_acknowledgement(
    p: VideoPipeline,
    channel: u8,
    msg_id: u16,
    payload: Seq<u8>,
)
    requires
        msg_id != 0x8000,
        msg_id != 0x8001,
    ensures
        ({
            let (after, answer) = shown(p, channel, msg_id, payload);
            &&& answer matches Ok((replies, start)) && replies.len() == 0 && start is None
            &&& msg_id == 0x8002 ==> pipeline::next_step(after, p.generation) is Exit
                && after.in_flight == 0 && after.wire == p.wire
            &&& msg_id == 0x8004 ==> match message::message_of::<AvMediaAckIndication>(payload) {
                Some(_) => after.in_flight == (if p.in_flight > 0 {
                    p.in_flight - 1
                } else {
                    0
                }) && after.generation == p.generation && after.wire == p.wire
                    && after.max_in_flight == p.max_in_flight && after.session == p.session,
                None => after == p,
            }
            &&& msg_id != 0x8002 && msg_id != 0x8004 ==> after == p
        }),
{
}

} // verus!
