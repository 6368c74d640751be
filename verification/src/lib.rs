//! A push-to-talk voice chat: clients record 20 ms frames while the talk key
//! is down, encode them, and send them as protobuf datagrams through a relay
//! server to every other client, which plays them.
//!
//! - `varint`, `wire`: the protobuf wire format, over prost's encoding
//!   functions.
//! - `packet`: the datagram messages and their encoding and decoding.
//! - `session`: what the client and the server do with a datagram.
//! - `ptt`, `recorder`, `playback`: the decisions of the client's key
//!   listener and audio threads.
//! - `coder`: the decisions around the Opus codec.
use vstd::prelude::*;

pub mod coder;
pub mod packet;
pub mod playback;
pub mod ptt;
pub mod recorder;
pub mod session;
pub mod varint;
pub mod wire;

verus! {

} // verus!
