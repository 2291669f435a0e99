//! Framing shared by the eHub and iHub messages: four magic bytes, the
//! message type, the universe, a 16-bit count, the 16-bit size of the gzip
//! payload, then the payload.
use vstd::prelude::*;
use crate::wire::{le16, push_le16, push_all};
use crate::gzip::{gzip_fast, gzip_compress};

verus! {

/// The bytes of a message whose compressed payload is `compressed`.  The
/// count and the size keep their low 16 bits.
pub open spec fn hub_message(magic: Seq<u8>, msg_type: u8, universe: u8, count: int, compressed: Seq<u8>) -> Seq<u8> {
    magic + seq![msg_type, universe] + le16((count % 65536) as u16) + le16((compressed.len() % 65536) as u16) + compressed
}

/// The message whose already compressed payload is `compressed`.
pub fn frame_hub_message(magic: [u8; 4], msg_type: u8, universe: u8, count: usize, compressed: &[u8]) -> (m: Vec<u8>)
    ensures
        m@ == hub_message(magic@, msg_type, universe, count as int, compressed@),
{
    let mut message: Vec<u8> = Vec::new();
    message.push(magic[0]);
    message.push(magic[1]);
    message.push(magic[2]);
    message.push(magic[3]);
    message.push(msg_type);
    message.push(universe);
    push_le16(&mut message, (count % 65536) as u16);
    push_le16(&mut message, (compressed.len() % 65536) as u16);
    push_all(&mut message, compressed);
    assert(message@ =~= hub_message(magic@, msg_type, universe, count as int, compressed@));
    message
}

/// The message carrying the gzip stream of `payload` (see
/// `frame_hub_message`); always built.
pub fn build_hub_message(magic: [u8; 4], msg_type: u8, universe: u8, count: usize, payload: &[u8]) -> (m: Option<Vec<u8>>)
    ensures
        m matches Some(v) && v@ == hub_message(magic@, msg_type, universe, count as int, gzip_fast(payload@)),
{
    let compressed = gzip_compress(payload);
    Some(frame_hub_message(magic, msg_type, universe, count, compressed.as_slice()))
}

/// Milliseconds between two configuration messages.
pub const CONFIG_INTERVAL_MS: u64 = 1000;

/// Whether a configuration message last sent at `last_ms` is due again at
/// `now_ms`: a whole second or more has passed.
pub open spec fn config_is_due(last_ms: u64, now_ms: u64) -> bool {
    now_ms >= last_ms && now_ms - last_ms >= CONFIG_INTERVAL_MS
}

/// Whether the configuration is due again (see `config_is_due`).
pub fn config_due(last_ms: u64, now_ms: u64) -> (r: bool)
    ensures
        r == config_is_due(last_ms, now_ms),
{
    now_ms >= last_ms && now_ms - last_ms >= CONFIG_INTERVAL_MS
}

} // verus!
