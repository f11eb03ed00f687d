//! The numbers that stand for choices in messages.
use vstd::prelude::*;

verus! {

pub const STATUS_OK: i32 = 0;

pub const AV_CHANNEL_SETUP_STATUS_OK: i32 = 2;

pub const AV_STREAM_TYPE_AUDIO: i32 = 1;

pub const AV_STREAM_TYPE_VIDEO: i32 = 3;

pub const AUDIO_TYPE_NONE: i32 = 0;

pub const AUDIO_TYPE_SPEECH: i32 = 1;

pub const AUDIO_TYPE_SYSTEM: i32 = 2;

pub const AUDIO_TYPE_MEDIA: i32 = 3;

pub const AUDIO_TYPE_ALARM: i32 = 4;

pub const AUDIO_FOCUS_TYPE_GAIN: i32 = 1;

pub const AUDIO_FOCUS_STATE_GAIN: i32 = 1;

pub const VIDEO_RESOLUTION_720P: i32 = 2;

pub const VIDEO_RESOLUTION_1080P: i32 = 3;

pub const VIDEO_FPS_30: i32 = 1;

pub const SENSOR_LOCATION: i32 = 1;

pub const SENSOR_COMPASS: i32 = 2;

pub const SENSOR_CAR_SPEED: i32 = 3;

pub const SENSOR_PARKING_BRAKE: i32 = 7;

pub const SENSOR_GEAR: i32 = 8;

pub const SENSOR_NIGHT_DATA: i32 = 10;

pub const SENSOR_DRIVING_STATUS: i32 = 13;

pub const BUTTON_MENU: u32 = 0x02;

pub const BUTTON_HOME: u32 = 0x03;

pub const BUTTON_BACK: u32 = 0x04;

pub const BUTTON_PHONE: u32 = 0x05;

pub const BUTTON_CALL_END: u32 = 0x06;

pub const BUTTON_UP: u32 = 0x13;

pub const BUTTON_DOWN: u32 = 0x14;

pub const BUTTON_LEFT: u32 = 0x15;

pub const BUTTON_RIGHT: u32 = 0x16;

pub const BUTTON_ENTER: u32 = 0x17;

pub const BUTTON_MICROPHONE_1: u32 = 0x54;

pub const BUTTON_TOGGLE_PLAY: u32 = 0x55;

pub const BUTTON_NEXT: u32 = 0x57;

pub const BUTTON_PREV: u32 = 0x58;

pub const BUTTON_PLAY: u32 = 0x7e;

pub const BUTTON_PAUSE: u32 = 0x7f;

} // verus!
