//! The messages that a head unit and a phone exchange.
pub mod data;
pub mod enums;
pub mod layout;
pub mod message;
pub mod messages;
pub mod record;
pub mod wire;
