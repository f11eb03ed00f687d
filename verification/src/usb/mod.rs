//! USB: the accessory handshake and the device behind it.
pub mod ffs;
pub mod gadget;
pub mod stream;
pub mod uevent;
