//! Core engine of a live MIDI splitter: routing, transformation and ordering
//! of MIDI messages flowing from input ports to mapped output ports.
//!
//! The crate holds the verified logic only: message parsing, the per-message
//! transform pipeline, held-note and held-pedal bookkeeping, and the stage
//! that releases events in timestamp order. Port I/O, persistence and the
//! user interface live outside and talk to this crate through plain values.

pub mod common_settings;
pub mod events;
pub mod filter_map;
pub mod heldstate;
pub mod input_settings;
pub mod listener;
pub mod ordering;
pub mod output_settings;
pub mod ports;
pub mod preset;
pub mod properties;
pub mod recent;
pub mod utils;
