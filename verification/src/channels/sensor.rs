//! The sensor channel: what the car's sensors report.
//!
//! The car asks to start a sensor, and every request is granted. Of the events
//! the positions are kept: each becomes a line of the GPS log, and a fix for the
//! navigation. The other ones are read, and nothing follows from them.
use crate::channel_id::ChannelId;
use crate::channels;
use crate::channels::{HandleError, Outbound, OutboundMessage};
use crate::proto::data::GpsLocation;
use crate::proto::enums;
use crate::proto::message;
use crate::proto::message::Message;
use crate::proto::messages::{
    SensorEventIndication, SensorStartRequestMessage, SensorStartResponseMessage,
};
use crate::text;
use vstd::prelude::*;

verus! {

pub const MSG_SENSOR_START_REQUEST: u16 = 0x8001;

pub const MSG_SENSOR_START_RESPONSE: u16 = 0x8002;

pub const MSG_SENSOR_EVENT_INDICATION: u16 = 0x8003;

/// Where the GPS log is kept.
pub const DEFAULT_GPS_LOG_PATH: &'static str = "/data/local/tmp/aabox-gps.log";

/// What is to be done about a message of the sensor channel.
#[derive(Debug)]
pub struct SensorStep {
    /// The messages to send back.
    pub replies: Vec<OutboundMessage>,
    /// The positions to log and to hand on.
    pub fixes: Vec<GpsLocation>,
}

/// What is answered on the sensor channel, and which positions came.
pub open spec fn sensed(msg_id: u16, payload: Seq<u8>) -> Result<
    (Seq<Outbound>, Seq<GpsLocation>),
    HandleError,
> {
    if msg_id == MSG_SENSOR_START_REQUEST {
        match message::message_of::<SensorStartRequestMessage>(payload) {
            Some(_) => Ok(
                (
                    seq![
                        channels::said_on::<SensorStartResponseMessage>(
                            2,
                            MSG_SENSOR_START_RESPONSE,
                            SensorStartResponseMessage { status: enums::STATUS_OK },
                        ),
                    ],
                    Seq::empty(),
                ),
            ),
            None => Err(HandleError::SensorStartRequest),
        }
    } else if msg_id == MSG_SENSOR_EVENT_INDICATION {
        match message::message_of::<SensorEventIndication>(payload) {
            Some(ev) => Ok((Seq::empty(), ev.gps_location)),
            None => Err(HandleError::SensorEventIndication),
        }
    } else {
        Ok((Seq::empty(), Seq::empty()))
    }
}

/// Handles the messages of the sensor channel.
#[derive(Debug)]
pub struct SensorHandler {
    /// Where the GPS log is kept.
    pub gps_log_path: String,
}

impl Default for SensorHandler {
    fn default() -> (r: Self)
        ensures
            r.gps_log_path@ == DEFAULT_GPS_LOG_PATH@,
    {
        SensorHandler::new(DEFAULT_GPS_LOG_PATH)
    }
}

impl SensorHandler {
    pub fn new(path: &str) -> (r: Self)
        ensures
            r.gps_log_path@ == path@,
    {
        SensorHandler { gps_log_path: path.to_string() }
    }

    /// The same handler with the log in another place.
    pub fn with_gps_log_path(self, path: &str) -> (r: Self)
        ensures
            r.gps_log_path@ == path@,
    {
        SensorHandler { gps_log_path: path.to_string() }
    }

    /// Handles a message of the sensor channel; `payload` is what follows its
    /// number.
    pub fn handle(&self, msg_id: u16, payload: &[u8]) -> (r: Result<SensorStep, HandleError>)
        ensures
            match sensed(msg_id, payload@) {
                Ok((replies, fixes)) => r matches Ok(step) && channels::flight(step.replies@)
                    == replies && step.fixes@ == fixes,
                Err(e) => r matches Err(x) && x == e,
            },
    {
        if msg_id == MSG_SENSOR_START_REQUEST {
            match SensorStartRequestMessage::decode(payload) {
                Ok(_) => {
                    let resp = SensorStartResponseMessage { status: enums::STATUS_OK };
                    let reply: OutboundMessage = channels::encode_outbound(
                        ChannelId::Sensor.code(),
                        MSG_SENSOR_START_RESPONSE,
                        &resp,
                    );
                    Ok(SensorStep { replies: channels::single(reply), fixes: Vec::new() })
                },
                Err(_) => Err(HandleError::SensorStartRequest),
            }
        } else if msg_id == MSG_SENSOR_EVENT_INDICATION {
            match SensorEventIndication::decode(payload) {
                Ok(ev) => {
                    assert(message::said::<GpsLocation>(ev.gps_location@) =~= ev.gps_location@);
                    Ok(SensorStep { replies: channels::silence(), fixes: ev.gps_location })
                },
                Err(_) => Err(HandleError::SensorEventIndication),
            }
        } else {
            Ok(SensorStep { replies: channels::silence(), fixes: Vec::new() })
        }
    }
}

/// The line of the GPS log for a position: a JSON object in metres and degrees.
/// The bearing is given as text.
pub open spec fn gps_line_of(loc: GpsLocation, bearing_deg: Seq<char>) -> Seq<char> {
    "{\"ts\":"@ + text::decimal(loc.timestamp as nat) + ",\"lat\":"@ + text::fixed(
        loc.latitude as int,
        7,
    ) + ",\"lon\":"@ + text::fixed(loc.longitude as int, 7) + ",\"alt\":"@ + text::fixed(
        loc.altitude as int,
        3,
    ) + ",\"speed_mps\":"@ + text::fixed(loc.speed as int, 3) + ",\"bearing_deg\":"@ + bearing_deg
        + ",\"accuracy_m\":"@ + text::fixed(loc.accuracy as int, 3) + "}\n"@
}

/// The line of the GPS log for a position.
pub fn gps_line(loc: &GpsLocation, bearing_deg: &str) -> (r: String)
    ensures
        r@ == gps_line_of(*loc, bearing_deg@),
{
    let mut line: String = "{\"ts\":".to_string();
    line.append(text::to_decimal(loc.timestamp).as_str());
    line.append(",\"lat\":");
    line.append(text::to_fixed(loc.latitude as i64, 7).as_str());
    line.append(",\"lon\":");
    line.append(text::to_fixed(loc.longitude as i64, 7).as_str());
    line.append(",\"alt\":");
    line.append(text::to_fixed(loc.altitude as i64, 3).as_str());
    line.append(",\"speed_mps\":");
    line.append(text::to_fixed(loc.speed as i64, 3).as_str());
    line.append(",\"bearing_deg\":");
    line.append(bearing_deg);
    line.append(",\"accuracy_m\":");
    line.append(text::to_fixed(loc.accuracy as i64, 3).as_str());
    line.append("}\n");
    line
}

/// The line of the log names each part of a position in front of it: the time, the
/// latitude and longitude in degrees with seven places, the altitude in metres, the speed
/// and the accuracy with three places each, and the bearing. It is one line.
pub proof fn lemma_gps_line(loc: GpsLocation, bearing_deg: Seq<char>)
    ensures
        ({
            let line = gps_line_of(loc, bearing_deg);
            &&& text::starts_with(line, "{\"ts\":"@ + text::decimal(loc.timestamp as nat) + ","@)
            &&& tells(line, "\"lat\":"@ + text::fixed(loc.latitude as int, 7) + ","@)
            &&& tells(line, "\"lon\":"@ + text::fixed(loc.longitude as int, 7) + ","@)
            &&& tells(line, "\"alt\":"@ + text::fixed(loc.altitude as int, 3) + ","@)
            &&& tells(line, "\"speed_mps\":"@ + text::fixed(loc.speed as int, 3) + ","@)
            &&& tells(line, "\"bearing_deg\":"@ + bearing_deg + ","@)
            &&& text::ends_with(
                line,
                "\"accuracy_m\":"@ + text::fixed(loc.accuracy as int, 3) + "}\n"@,
            )
        }),
{
    reveal_strlit(",");
    reveal_strlit("{\"ts\":");
    reveal_strlit(",\"lat\":");
    reveal_strlit("\"lat\":");
    reveal_strlit(",\"lon\":");
    reveal_strlit("\"lon\":");
    reveal_strlit(",\"alt\":");
    reveal_strlit("\"alt\":");
    reveal_strlit(",\"speed_mps\":");
    reveal_strlit("\"speed_mps\":");
    reveal_strlit(",\"bearing_deg\":");
    reveal_strlit("\"bearing_deg\":");
    reveal_strlit(",\"accuracy_m\":");
    reveal_strlit("\"accuracy_m\":");
    let line = gps_line_of(loc, bearing_deg);
    let ts = "{\"ts\":"@ + text::decimal(loc.timestamp as nat);
    let lat = ts + ",\"lat\":"@ + text::fixed(loc.latitude as int, 7);
    let lon = lat + ",\"lon\":"@ + text::fixed(loc.longitude as int, 7);
    let alt = lon + ",\"alt\":"@ + text::fixed(loc.altitude as int, 3);
    let speed = alt + ",\"speed_mps\":"@ + text::fixed(loc.speed as int, 3);
    let bearing = speed + ",\"bearing_deg\":"@ + bearing_deg;
    let whole = bearing + ",\"accuracy_m\":"@ + text::fixed(loc.accuracy as int, 3) + "}\n"@;
    assert(line == whole);
    assert(line.subrange(0, (ts.len() + 1) as int) =~= ts + ","@);
    lemma_told(line, ts, "\"lat\":"@ + text::fixed(loc.latitude as int, 7) + ","@);
    lemma_told(line, lat, "\"lon\":"@ + text::fixed(loc.longitude as int, 7) + ","@);
    lemma_told(line, lon, "\"alt\":"@ + text::fixed(loc.altitude as int, 3) + ","@);
    lemma_told(line, alt, "\"speed_mps\":"@ + text::fixed(loc.speed as int, 3) + ","@);
    lemma_told(line, speed, "\"bearing_deg\":"@ + bearing_deg + ","@);
    let last = "\"accuracy_m\":"@ + text::fixed(loc.accuracy as int, 3) + "}\n"@;
    assert(line.subrange(line.len() - last.len(), line.len() as int) =~= last);
}

/// Whether a part stands in a line behind a comma.
pub open spec fn tells(line: Seq<char>, part: Seq<char>) -> bool {
    exists|i: int|
        1 <= i && i + part.len() <= line.len() && line[i - 1] == ',' && #[trigger] line.subrange(
            i,
            i + part.len(),
        ) == part
}

proof fn lemma_told(line: Seq<char>, before: Seq<char>, part: Seq<char>)
    requires
        before.len() + 1 + part.len() <= line.len(),
        line[before.len() as int] == ',',
        line.subrange((before.len() + 1) as int, (before.len() + 1 + part.len()) as int)
            =~= part,
    ensures
        tells(line, part),
{
    let i = (before.len() + 1) as int;
    assert(line.subrange(i, i + part.len()) == part);
}

} // verus!
