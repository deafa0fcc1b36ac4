//! Decoding of terse embedded log streams against dictionaries carved out of
//! firmware images.
//!
//! A dictionary is rebuilt from the log section of a firmware image
//! ([`dictionary`]); frames of the stream are then decoded against the
//! registered dictionaries ([`decoder`]).

pub mod bytes;
pub mod decoder;
pub mod dictionary;
pub mod laws;
pub mod line;
pub mod location;
pub mod severity;
pub mod splitter;
pub mod text;
pub mod ulog_argument;
pub mod ulog_message;
pub mod ulog_string;
pub mod ulog_system_info;
