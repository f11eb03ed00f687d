//! Reads and writes on a device that can do only one thing at a time.
//!
//! A read or a write runs in the background. Until it has ended, the other waits.
use vstd::prelude::*;

verus! {

/// The accessory device.
pub const ACCESSORY_DEV: &'static str = "/dev/usb_accessory";

/// What runs in the background.
#[derive(Debug, Clone, Copy, PartialEq, Eq, Structural)]
pub enum IoState {
    Idle,
    Reading,
    Writing,
}

/// What a caller who wants to read or write does next.
#[derive(Debug, Clone, Copy, PartialEq, Eq, Structural)]
pub enum PollStep {
    /// There is nothing to do.
    Nothing,
    /// Begin in the background.
    Begin,
    /// Ask whether what runs in the background has ended.
    Check,
    /// Wait: something else runs in the background.
    Wait,
}

/// What a caller who wants to read up to `room` bytes does next.
pub fn read_step(state: IoState, room: usize) -> (r: PollStep)
    ensures
        r == match state {
            IoState::Idle => if room == 0 {
                PollStep::Nothing
            } else {
                PollStep::Begin
            },
            IoState::Reading => PollStep::Check,
            IoState::Writing => PollStep::Wait,
        },
        r is Begin <==> state is Idle && room > 0,
        r is Check <==> state is Reading,
        r is Wait <==> state is Writing,
{
    match state {
        IoState::Idle => {
            if room == 0 {
                PollStep::Nothing
            } else {
                PollStep::Begin
            }
        },
        IoState::Reading => PollStep::Check,
        IoState::Writing => PollStep::Wait,
    }
}

/// What a caller who wants to write does next.
pub fn write_step(state: IoState) -> (r: PollStep)
    ensures
        r == match state {
            IoState::Idle => PollStep::Begin,
            IoState::Reading => PollStep::Wait,
            IoState::Writing => PollStep::Check,
        },
        r is Begin <==> state is Idle,
        r is Check <==> state is Writing,
        r is Wait <==> state is Reading,
{
    match state {
        IoState::Idle => PollStep::Begin,
        IoState::Reading => PollStep::Wait,
        IoState::Writing => PollStep::Check,
    }
}

} // verus!
