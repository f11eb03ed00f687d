//! The phone's side of a projection to a car: what is said on the wire, and what is
//! answered to it; and the patching and signing of the packages that run behind it.
use vstd::prelude::*;

pub mod buffers;
pub mod channel_id;
pub mod channels;
pub mod control;
pub mod control_channel;
pub mod encrypted;
pub mod error;
pub mod framing;
pub mod kmsg;
pub mod nav;
pub mod octets;
pub mod proto;
pub mod resigner;
pub mod services;
pub mod startup;
pub mod text;
pub mod tls_tunnel;
pub mod usb;

verus! {

/// The version of the library.
pub fn version() -> (r: &'static str)
    ensures
        r@ == "0.1.0"@,
{
    "0.1.0"
}

} // verus!
