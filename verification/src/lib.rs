//! Bridging rules between a realtime MIDI device bus and an OSC-over-UDP
//! transport: port-tagged MIDI events, their datagram framing, and the
//! per-period routing performed by the realtime callback.

pub mod bridge;
pub mod codec;
pub mod event;
pub mod ports;
