//! Directions: where they come from, and where they lead.
pub mod destination_file;
pub mod osrm;
pub mod runner;
pub mod source;
