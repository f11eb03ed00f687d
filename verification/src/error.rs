//! What can go wrong.
use crate::text;
use vstd::prelude::*;

verus! {

/// What went wrong, and in which part.
#[derive(Debug)]
pub enum Error {
    Io(String),
    Protocol(String),
    Tls(String),
    Usb(String),
}

impl Error {
    /// The error as a text: the part and what went wrong.
    pub fn message(&self) -> (r: String)
        ensures
            r@ == match *self {
                Error::Io(s) => "io: "@ + s@,
                Error::Protocol(s) => "protocol: "@ + s@,
                Error::Tls(s) => "tls: "@ + s@,
                Error::Usb(s) => "usb: "@ + s@,
            },
    {
        match self {
            Error::Io(s) => text::join("io: ", s.as_str()),
            Error::Protocol(s) => text::join("protocol: ", s.as_str()),
            Error::Tls(s) => text::join("tls: ", s.as_str()),
            Error::Usb(s) => text::join("usb: ", s.as_str()),
        }
    }
}

} // verus!
