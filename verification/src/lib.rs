//! Verified core of a spiral RSVP (rapid serial visual presentation) reader.

pub mod color;
pub mod config;
pub mod content_parser;
pub mod number;
pub mod rsvp;
pub mod scheduler;
pub mod text;
pub mod wav;
