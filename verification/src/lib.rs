//! Verified core of an audio-reactive LED wall: the wire formats spoken to the
//! LED controllers and to remote clients, the mapping of a rendered frame onto
//! the physical strips, and the bookkeeping around them.
use vstd::prelude::*;

pub mod wire;
pub mod text;
pub mod gzip;
pub mod frames;
pub mod hubmsg;
pub mod preview;
pub mod led;
pub mod artnet;
pub mod client;
pub mod router;
pub mod ehub;
pub mod ihub;
pub mod udp;
pub mod server;
pub mod effects;
pub mod modes;

verus! {
} // verus!
