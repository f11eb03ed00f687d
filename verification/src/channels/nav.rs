//! The navigation channel: turn-by-turn directions to the car.
//!
//! An instruction goes out as three messages: a status line, the next turn and
//! the distance to it.
use crate::buffers;
use crate::channel_id::ChannelId;
use crate::channels;
use crate::channels::{HandleError, Outbound, OutboundMessage};
use crate::octets;
use bytes::BytesMut;
use vstd::prelude::*;
use vstd::utf8;

verus! {

pub const MSG_NAVIGATION_STATUS: u16 = 0x8001;

pub const MSG_NAVIGATION_TURN_EVENT: u16 = 0x8002;

pub const MSG_NAVIGATION_DISTANCE_EVENT: u16 = 0x8003;

/// An instruction to the driver.
#[derive(Debug)]
pub struct NavInstruction {
    /// The status line.
    pub status_text: String,
    /// The icon of the next turn: 1 straight on, 2 slight left, 3 left, 4 sharp
    /// left, 5 U-turn, 6 sharp right, 7 right, 8 slight right.
    pub turn_id: u32,
    /// The distance to the next turn in metres.
    pub distance_m: u32,
}

/// What an instruction says.
#[verifier::ext_equal]
pub struct Instruction {
    pub status_text: Seq<char>,
    pub turn_id: u32,
    pub distance_m: u32,
}

impl View for NavInstruction {
    type V = Instruction;

    open spec fn view(&self) -> Instruction {
        Instruction {
            status_text: self.status_text@,
            turn_id: self.turn_id,
            distance_m: self.distance_m,
        }
    }
}

impl Clone for NavInstruction {
    fn clone(&self) -> (r: Self)
        ensures
            r@ == self@,
    {
        NavInstruction {
            status_text: self.status_text.clone(),
            turn_id: self.turn_id,
            distance_m: self.distance_m,
        }
    }
}

impl NavInstruction {
    /// The instruction to go straight on.
    pub fn straight_ahead() -> (r: Self)
        ensures
            r@ == (Instruction { status_text: "Continue straight"@, turn_id: 1, distance_m: 0 }),
    {
        NavInstruction {
            status_text: "Continue straight".to_string(),
            turn_id: 1,
            distance_m: 0,
        }
    }
}

/// The body of the status message: "in transit", and the status line after its
/// length.
pub open spec fn status_body(text: Seq<char>) -> Seq<u8> {
    let bytes = utf8::encode_utf8(text);
    seq![1u8] + octets::be16((bytes.len() % 65536) as u16) + bytes
}

/// The messages that an instruction goes out as.
pub open spec fn instruction_flight(i: Instruction) -> Seq<Outbound> {
    seq![
        Outbound {
            channel: 9,
            message_id: MSG_NAVIGATION_STATUS,
            payload: status_body(i.status_text),
        },
        Outbound {
            channel: 9,
            message_id: MSG_NAVIGATION_TURN_EVENT,
            payload: octets::be32(i.turn_id),
        },
        Outbound {
            channel: 9,
            message_id: MSG_NAVIGATION_DISTANCE_EVENT,
            payload: octets::be32(i.distance_m),
        },
    ]
}

/// The messages for an instruction.
pub fn encode_instruction(instr: &NavInstruction) -> (r: Vec<OutboundMessage>)
    ensures
        channels::flight(r@) == instruction_flight(instr@),
{
    let mut status: BytesMut = buffers::new_buffer();
    let text: &[u8] = instr.status_text.as_str().as_bytes();
    buffers::put_u8(&mut status, 1);
    buffers::put_u16(&mut status, (text.len() % 65536) as u16);
    buffers::put_slice(&mut status, text);
    assert(buffers::buffer_of(status) =~= status_body(instr.status_text@));

    let mut turn: BytesMut = buffers::new_buffer();
    buffers::put_u32(&mut turn, instr.turn_id);
    assert(buffers::buffer_of(turn) =~= octets::be32(instr.turn_id));

    let mut distance: BytesMut = buffers::new_buffer();
    buffers::put_u32(&mut distance, instr.distance_m);
    assert(buffers::buffer_of(distance) =~= octets::be32(instr.distance_m));

    let channel: u8 = ChannelId::Navigation.code();
    let mut out: Vec<OutboundMessage> = Vec::new();
    out.push(OutboundMessage::new(channel, MSG_NAVIGATION_STATUS, buffers::freeze(status)));
    out.push(OutboundMessage::new(channel, MSG_NAVIGATION_TURN_EVENT, buffers::freeze(turn)));
    out.push(
        OutboundMessage::new(channel, MSG_NAVIGATION_DISTANCE_EVENT, buffers::freeze(distance)),
    );
    assert(channels::flight(out@) =~= instruction_flight(instr@));
    out
}

/// Handles a message of the navigation channel. The car has nothing to say on it,
/// so there is no answer.
pub fn handle(_msg_id: u16, _payload: &[u8]) -> (r: Result<Vec<OutboundMessage>, HandleError>)
    ensures
        channels::answers(r, Ok(Seq::empty())),
{
    Ok(channels::silence())
}

/// The three messages of an instruction, as the car reads them: each on channel nine and
/// with its own number. The first holds the status line behind its length, the second
/// the icon of the turn, and the third the distance.
pub proof fn lemma_instruction_read_back(i: Instruction)
    ensures
        ({
            let ms = instruction_flight(i);
            let text = utf8::encode_utf8(i.status_text);
            &&& ms.len() == 3
            &&& forall|k: int| 0 <= k < 3 ==> (#[trigger] ms[k]).channel == 9
            &&& ms[0].message_id == 0x8001
            &&& ms[1].message_id == 0x8002
            &&& ms[2].message_id == 0x8003
            &&& ms[0].payload.len() == 3 + text.len()
            &&& ms[0].payload[0] == 1
            &&& text.len() < 65536 ==> octets::be16_at(ms[0].payload, 1) == text.len()
            &&& ms[0].payload.skip(3) == text
            &&& ms[1].payload.len() == 4
            &&& octets::be32_at(ms[1].payload, 0) == i.turn_id
            &&& ms[2].payload.len() == 4
            &&& octets::be32_at(ms[2].payload, 0) == i.distance_m
        }),
{
    let text = utf8::encode_utf8(i.status_text);
    let n = (text.len() % 65536) as u16;
    let status = instruction_flight(i)[0].payload;
    octets::lemma_be16_read_back(n);
    octets::lemma_be32_read_back(i.turn_id);
    octets::lemma_be32_read_back(i.distance_m);
    assert(status[1] == octets::be16(n)[0] && status[2] == octets::be16(n)[1]);
    assert(status.skip(3) =~= text);
}

} // verus!
