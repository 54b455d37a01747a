//! A user-space TCP connection engine for a layer-3 virtual network device.
//!
//! The crate holds the per-connection state machine, the wrap-around
//! sequence arithmetic it rests on, the table of connections with its
//! dispatch of inbound datagrams, and the stream operations of the
//! application. Time enters as a number of microseconds on a monotonic
//! clock, datagrams enter and leave as bytes; reading the clock and moving
//! the bytes is left to the caller.

pub mod util;
pub mod wire;
pub mod model;
pub mod theorems;
pub mod queue;
pub mod protocol;
pub mod stream;
