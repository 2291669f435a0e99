//! The remote-control client's side of the UDP protocol: building the
//! packets it sends, reading the headers and payloads it receives, and the
//! counters it keeps about the stream.
use vstd::prelude::*;
use vstd::string::StringExecFns;
use crate::text::{decimal, push_decimal};
use vstd::utf8::encode_utf8;
use crate::wire::{le16, le32, from_le16, from_le32, lemma_le16_roundtrip, lemma_le32_roundtrip,
    push_le16, push_le32, push_all, u16_from_le, u32_from_le};
use crate::udp::{parse_packet, type_of_code, plain_packet, PacketModel, PacketError, copy_range, packet_bytes, type_code,
    spectrum_payload, parse_spectrum, lemma_spectrum_roundtrip, frame_payload, FrameModel, FrameFormat, format_code};

verus! {

/// Packet type of a connection request.
pub const CONNECT: u8 = 0x01;
/// Packet type of a disconnection.
pub const DISCONNECT: u8 = 0x02;
/// Packet type of a ping.
pub const PING: u8 = 0x03;
/// Packet type of a ping's answer.
pub const PONG: u8 = 0x04;
/// Packet type of an acknowledgement.
pub const ACK: u8 = 0x05;
/// Packet type of a refusal.
pub const NACK: u8 = 0x06;
/// Packet type of a command.
pub const COMMAND: u8 = 0x10;
/// Packet type of a frame.
pub const FRAME_DATA: u8 = 0x20;
/// Packet type of a compressed frame.
pub const FRAME_DATA_COMPRESSED: u8 = 0x21;
/// Packet type of a spectrum.
pub const SPECTRUM_DATA: u8 = 0x30;
/// Command byte that selects an effect.
pub const SET_EFFECT: u8 = 0x01;
/// Command byte that selects a colour mode.
pub const SET_COLOR_MODE: u8 = 0x02;
/// Command byte that sets the custom colour.
pub const SET_CUSTOM_COLOR: u8 = 0x03;

/// The bytes of a packet the client sends: type, flags, sequence, fragment
/// 0 of 1, the low 16 bits of the payload length, then the payload.
pub open spec fn client_packet(packet_type: u8, flags: u8, sequence: u32, payload: Seq<u8>) -> Seq<u8> {
    seq![packet_type, flags] + le32(sequence) + le16(0) + le16(1) + le16((payload.len() % 65536) as u16) + payload
}

/// The bytes of a packet the client sends (see `client_packet`).
pub fn create_packet(packet_type: u8, flags: u8, sequence: u32, payload: Vec<u8>) -> (packet: Vec<u8>)
    ensures
        packet@ == client_packet(packet_type, flags, sequence, payload@),
{
    let mut packet: Vec<u8> = Vec::with_capacity(12);
    packet.push(packet_type);
    packet.push(flags);
    push_le32(&mut packet, sequence);
    push_le16(&mut packet, 0);
    push_le16(&mut packet, 1);
    push_le16(&mut packet, (payload.len() % 65536) as u16);
    push_all(&mut packet, payload.as_slice());
    assert(packet@ =~= client_packet(packet_type, flags, sequence, payload@));
    packet
}

/// A packet the client sends reads, on the server, as the plain packet it
/// stands for, when its type is known, its flags are known and its payload
/// fits the length field.
pub proof fn lemma_client_packet_reads_back(packet_type: u8, flags: u8, sequence: u32, payload: Seq<u8>)
    requires
        type_of_code(packet_type) is Some,
        flags < 16,
        payload.len() <= u16::MAX,
    ensures
        parse_packet(client_packet(packet_type, flags, sequence, payload)) == Ok::<PacketModel, PacketError>(PacketModel {
            flags,
            ..plain_packet(type_of_code(packet_type).unwrap(), sequence, payload)
        }),
{
    let b = client_packet(packet_type, flags, sequence, payload);
    lemma_le32_roundtrip(sequence);
    lemma_le16_roundtrip(0);
    lemma_le16_roundtrip(1);
    lemma_le16_roundtrip((payload.len() % 65536) as u16);
    assert(flags < 16 ==> flags & 0x0f == flags) by (bit_vector);
    assert(b.subrange(12, 12 + payload.len() as int) =~= payload);
}

/// The seconds since the Unix epoch, from std's `SystemTime::now()`, cut to
/// 32 bits (0 when the clock is before the epoch).  The value depends on
/// the clock; nothing is claimed of it.
#[verifier::external_body]
fn get_timestamp() -> (t: u32) {
    std::time::SystemTime::now().duration_since(std::time::UNIX_EPOCH).unwrap_or_default().as_secs() as u32
}

/// A packet the client sends, numbered with the current time.
fn timestamped_packet(packet_type: u8, flags: u8, payload: Vec<u8>) -> (packet: Vec<u8>)
    ensures
        exists|t: u32| #[trigger] client_packet(packet_type, flags, t, payload@) == packet@,
{
    let t = get_timestamp();
    let p = create_packet(packet_type, flags, t, payload);
    assert(client_packet(packet_type, flags, t, payload@) == p@);
    p
}

/// The flags of a connection request: compressed frames wanted, or none.
pub open spec fn connect_flags(compression: bool) -> u8 {
    if compression { 1 } else { 0 }
}

/// The request that opens a stream; it asks for compressed frames when
/// `compression` holds.
pub fn connect_packet(compression: bool) -> (packet: Vec<u8>)
    ensures
        exists|t: u32| #[trigger] client_packet(CONNECT, connect_flags(compression), t, Seq::empty()) == packet@,
{
    let flags: u8 = if compression { 1 } else { 0 };
    assert(flags == connect_flags(compression));
    let payload: Vec<u8> = Vec::new();
    assert(payload@ =~= Seq::<u8>::empty());
    timestamped_packet(CONNECT, flags, payload)
}

/// The packet that closes a session.
pub fn disconnect_packet() -> (packet: Vec<u8>)
    ensures
        exists|t: u32| #[trigger] client_packet(DISCONNECT, 0, t, Seq::empty()) == packet@,
{
    let payload: Vec<u8> = Vec::new();
    assert(payload@ =~= Seq::<u8>::empty());
    timestamped_packet(DISCONNECT, 0, payload)
}

/// A ping.
pub fn ping_packet() -> (packet: Vec<u8>)
    ensures
        exists|t: u32| #[trigger] client_packet(PING, 0, t, Seq::empty()) == packet@,
{
    let payload: Vec<u8> = Vec::new();
    assert(payload@ =~= Seq::<u8>::empty());
    timestamped_packet(PING, 0, payload)
}

/// The command that selects effect `effect_id`.
pub fn set_effect_packet(effect_id: u32) -> (packet: Vec<u8>)
    ensures
        exists|t: u32| #[trigger] client_packet(COMMAND, 0, t, seq![SET_EFFECT] + le32(effect_id)) == packet@,
{
    let mut payload: Vec<u8> = vec![SET_EFFECT];
    push_le32(&mut payload, effect_id);
    assert(payload@ =~= seq![SET_EFFECT] + le32(effect_id));
    timestamped_packet(COMMAND, 0, payload)
}

/// The command that selects the colour mode `mode`.
pub fn set_color_mode_packet(mode: &str) -> (packet: Vec<u8>)
    ensures
        exists|t: u32| #[trigger] client_packet(COMMAND, 0, t, seq![SET_COLOR_MODE] + encode_utf8(mode@)) == packet@,
{
    let mut payload: Vec<u8> = vec![SET_COLOR_MODE];
    push_all(&mut payload, mode.as_bytes());
    assert(payload@ =~= seq![SET_COLOR_MODE] + encode_utf8(mode@));
    timestamped_packet(COMMAND, 0, payload)
}

/// The command that sets the custom colour, given the bit patterns of its
/// three single-precision components.
pub fn set_custom_color_packet(r: u32, g: u32, b: u32) -> (packet: Vec<u8>)
    ensures
        exists|t: u32| #[trigger] client_packet(COMMAND, 0, t, seq![SET_CUSTOM_COLOR] + le32(r) + le32(g) + le32(b)) == packet@,
{
    let mut payload: Vec<u8> = vec![SET_CUSTOM_COLOR];
    push_le32(&mut payload, r);
    push_le32(&mut payload, g);
    push_le32(&mut payload, b);
    assert(payload@ =~= seq![SET_CUSTOM_COLOR] + le32(r) + le32(g) + le32(b));
    timestamped_packet(COMMAND, 0, payload)
}

/// Whether a reply opens with the acknowledgement packet type.
pub fn is_ack(reply: &[u8]) -> (r: bool)
    ensures
        r == (reply@.len() >= 1 && reply@[0] == ACK),
{
    reply.len() >= 1 && reply[0] == ACK
}

/// The header of a received packet.
#[derive(Debug, Clone, Copy, PartialEq, Eq, Structural)]
pub struct PacketHeader {
    pub packet_type: u8,
    pub flags: u8,
    pub sequence: u32,
    pub fragment_id: u16,
    pub fragment_count: u16,
    pub payload_size: u16,
}

/// The message of a datagram shorter than a header.
pub open spec fn too_short_message() -> Seq<char> {
    "Packet too short for header"@
}

/// The message that rejects a datagram of `got` bytes whose header announces
/// `expected`.
pub open spec fn length_mismatch_message(expected: u16, got: usize) -> Seq<char> {
    "Packet length mismatch: expected "@ + decimal(expected as nat) + ", got "@ + decimal(got as nat)
}

/// The rejection of a datagram (see `length_mismatch_message`).
fn length_mismatch_error(expected: u16, got: usize) -> (s: String)
    ensures
        s@ == length_mismatch_message(expected, got),
{
    let mut s = String::from_str("Packet length mismatch: expected ");
    push_decimal(&mut s, expected as usize);
    s.append(", got ");
    push_decimal(&mut s, got);
    s
}

/// The header the first twelve bytes of a datagram hold.
pub open spec fn header_of(data: Seq<u8>) -> PacketHeader {
    PacketHeader {
        packet_type: data[0],
        flags: data[1],
        sequence: from_le32(data[2], data[3], data[4], data[5]),
        fragment_id: from_le16(data[6], data[7]),
        fragment_count: from_le16(data[8], data[9]),
        payload_size: from_le16(data[10], data[11]),
    }
}

impl PacketHeader {
    /// The header of `data`; refused when it has fewer than twelve bytes.
    pub fn parse(data: &[u8]) -> (r: Result<Self, String>)
        ensures
            r is Ok <==> data@.len() >= 12,
            r matches Ok(h) ==> h == header_of(data@),
            r matches Err(m) ==> m@ == too_short_message(),
    {
        if data.len() < 12 {
            return Err("Packet too short for header".to_owned());
        }
        Ok(PacketHeader {
            packet_type: data[0],
            flags: data[1],
            sequence: u32_from_le(data[2], data[3], data[4], data[5]),
            fragment_id: u16_from_le(data[6], data[7]),
            fragment_count: u16_from_le(data[8], data[9]),
            payload_size: u16_from_le(data[10], data[11]),
        })
    }

    /// Accepts a datagram of `packet_len` bytes exactly when it holds the
    /// header and the whole announced payload.
    pub fn validate(&self, packet_len: usize) -> (r: Result<(), String>)
        requires
            packet_len < 12 + self.payload_size ==> self.payload_size + 12 <= u16::MAX,
        ensures
            r is Ok <==> packet_len >= 12 + self.payload_size,
            r matches Err(m) ==> m@ == length_mismatch_message((12 + self.payload_size) as u16, packet_len),
    {
        if packet_len < 12 + self.payload_size as usize {
            return Err(length_mismatch_error(12 + self.payload_size, packet_len));
        }
        Ok(())
    }
}

/// Reading the header of a packet the client sends gives back its fields.
pub proof fn lemma_header_reads_back(packet_type: u8, flags: u8, sequence: u32, payload: Seq<u8>)
    requires
        payload.len() <= u16::MAX,
    ensures
        header_of(client_packet(packet_type, flags, sequence, payload)) == (PacketHeader {
            packet_type,
            flags,
            sequence,
            fragment_id: 0,
            fragment_count: 1,
            payload_size: payload.len() as u16,
        }),
{
    lemma_le32_roundtrip(sequence);
    lemma_le16_roundtrip(0);
    lemma_le16_roundtrip(1);
    lemma_le16_roundtrip(payload.len() as u16);
}

} // verus!

verus! {

/// A frame as the client displays it.
#[derive(Debug, Clone)]
pub struct ClientFrame {
    pub width: u16,
    pub height: u16,
    pub format: u8,
    pub data: Vec<u8>,
}

/// Why a frame payload was refused.
#[derive(Debug, Clone, Copy, PartialEq, Eq, Structural)]
pub enum FrameDataError {
    /// Fewer than the five header bytes.
    TooShort,
    /// A side of zero or over 1024 pixels.
    InvalidDimensions(u16, u16),
    /// A layout other than RGB (1) or RGBA (2).
    UnsupportedFormat(u8),
    /// Fewer bytes than the header and the pixels need.
    Insufficient { expected: usize, got: usize },
}

/// Bytes per pixel of a layout the client shows: 3 for RGB, 4 for RGBA.
pub open spec fn bytes_per_pixel(format: u8) -> int {
    if format == 1 { 3 } else if format == 2 { 4 } else { 0 }
}

/// How a frame payload reads: the error, or width, height, layout and the
/// pixel bytes (exactly as many as the dimensions need).
pub open spec fn read_frame(data: Seq<u8>) -> Result<(u16, u16, u8, Seq<u8>), FrameDataError> {
    if data.len() < 5 {
        Err(FrameDataError::TooShort)
    } else {
        let w = from_le16(data[0], data[1]);
        let h = from_le16(data[2], data[3]);
        let f = data[4];
        if w == 0 || h == 0 || w > 1024 || h > 1024 {
            Err(FrameDataError::InvalidDimensions(w, h))
        } else if f != 1 && f != 2 {
            Err(FrameDataError::UnsupportedFormat(f))
        } else {
            let size = w * h * bytes_per_pixel(f);
            if data.len() < 5 + size {
                Err(FrameDataError::Insufficient { expected: (5 + size) as usize, got: data.len() as usize })
            } else {
                Ok((w, h, f, data.subrange(5, 5 + size)))
            }
        }
    }
}

/// Reads a frame payload (see `read_frame`).
pub fn parse_frame_data(data: &[u8]) -> (r: Result<ClientFrame, FrameDataError>)
    ensures
        match (r, read_frame(data@)) {
            (Ok(f), Ok(m)) => (f.width, f.height, f.format, f.data@) == m,
            (Err(e), Err(m)) => e == m,
            _ => false,
        },
{
    if data.len() < 5 {
        return Err(FrameDataError::TooShort);
    }
    let width = u16_from_le(data[0], data[1]);
    let height = u16_from_le(data[2], data[3]);
    let format = data[4];
    if width == 0 || height == 0 || width > 1024 || height > 1024 {
        return Err(FrameDataError::InvalidDimensions(width, height));
    }
    let bpp: usize = if format == 1 {
        3
    } else if format == 2 {
        4
    } else {
        return Err(FrameDataError::UnsupportedFormat(format));
    };
    assert((width as int) * (height as int) <= 1024 * 1024) by (nonlinear_arith)
        requires
            width <= 1024,
            height <= 1024,
    ;
    let expected_size = (width as usize) * (height as usize) * bpp;
    if data.len() < 5 + expected_size {
        return Err(FrameDataError::Insufficient { expected: 5 + expected_size, got: data.len() });
    }
    Ok(ClientFrame { width, height, format, data: copy_range(data, 5, 5 + expected_size) })
}

/// Why a spectrum payload was refused.
#[derive(Debug, Clone, Copy, PartialEq, Eq, Structural)]
pub enum SpectrumDataError {
    /// Fewer than the two header bytes.
    TooShort,
    /// No bands, or over 1024.
    InvalidBandCount(u16),
    /// Fewer bytes than the announced bands need.
    Insufficient { expected: usize, got: usize },
}

/// How a spectrum payload reads: the error, or the bit patterns of its bands
/// (trailing bytes ignored).
pub open spec fn read_spectrum(data: Seq<u8>) -> Result<Seq<u32>, SpectrumDataError> {
    if data.len() < 2 {
        Err(SpectrumDataError::TooShort)
    } else {
        let n = from_le16(data[0], data[1]);
        if n == 0 || n > 1024 {
            Err(SpectrumDataError::InvalidBandCount(n))
        } else if data.len() < 2 + 4 * n {
            Err(SpectrumDataError::Insufficient { expected: (2 + 4 * n) as usize, got: data.len() as usize })
        } else {
            Ok(Seq::new(n as nat, |i: int| from_le32(data[2 + 4 * i], data[3 + 4 * i], data[4 + 4 * i], data[5 + 4 * i])))
        }
    }
}

/// Reads the bands of a spectrum payload as bit patterns (see
/// `read_spectrum`); the caller turns them into numbers.
pub fn parse_spectrum_data(data: &[u8]) -> (r: Result<Vec<u32>, SpectrumDataError>)
    ensures
        match (r, read_spectrum(data@)) {
            (Ok(b), Ok(m)) => b@ == m,
            (Err(e), Err(m)) => e == m,
            _ => false,
        },
{
    if data.len() < 2 {
        return Err(SpectrumDataError::TooShort);
    }
    let band_count = u16_from_le(data[0], data[1]);
    if band_count == 0 || band_count > 1024 {
        return Err(SpectrumDataError::InvalidBandCount(band_count));
    }
    let n = band_count as usize;
    let expected_size = 2 + n * 4;
    if data.len() < expected_size {
        return Err(SpectrumDataError::Insufficient { expected: expected_size, got: data.len() });
    }
    let mut values: Vec<u32> = Vec::with_capacity(n);
    let mut i: usize = 0;
    while i < n
        invariant
            i <= n,
            n == band_count,
            data@.len() >= 2 + 4 * n,
            values@ =~= Seq::new(i as nat, |k: int| from_le32(data@[2 + 4 * k], data@[3 + 4 * k], data@[4 + 4 * k], data@[5 + 4 * k])),
        decreases n - i,
    {
        let offset = 2 + i * 4;
        values.push(u32_from_le(data[offset], data[offset + 1], data[offset + 2], data[offset + 3]));
        i = i + 1;
    }
    Ok(values)
}

/// The counters the client keeps about a stream.
#[derive(Debug, Clone, Copy, PartialEq, Eq, Structural)]
pub struct StreamCounters {
    pub packets_received: u32,
    pub frames_received: u32,
    pub spectrum_received: u32,
    pub bytes_received: u64,
    pub packets_lost: u32,
    pub last_sequence: u32,
}

/// What became of a received datagram.
#[derive(Debug, Clone)]
pub enum StreamEvent {
    /// Shorter than its header announces; dropped without touching the
    /// counters.
    Dropped,
    /// Shorter than a header; counted as lost.
    BadHeader,
    /// A frame to show.
    Frame(ClientFrame),
    /// A frame payload that did not read; counted as lost.
    BadFrame(FrameDataError),
    /// A compressed frame to show, as received.
    CompressedFrame(Vec<u8>),
    /// A spectrum to show, as bit patterns.
    Spectrum(Vec<u32>),
    /// A spectrum payload that did not read; counted as lost.
    BadSpectrum(SpectrumDataError),
    /// A packet of another type, ignored.
    Other(u8),
}

/// The packets missing between the last sequence number seen and the one of
/// this datagram (none when no number was seen yet or the numbers did not
/// jump forward).
pub open spec fn sequence_gap(last: u32, seq: u32) -> int {
    if last > 0 && seq > last + 1 { seq - last - 1 } else { 0 }
}

/// The counters after a datagram: received and bytes counted, the sequence
/// gap and any unreadable payload counted as lost, frames and spectra
/// counted by type; unchanged for a datagram shorter than its header
/// announces.
pub open spec fn counters_after(c: StreamCounters, data: Seq<u8>) -> StreamCounters {
    let c1 = StreamCounters { packets_received: (c.packets_received + 1) as u32, bytes_received: (c.bytes_received + data.len()) as u64, ..c };
    if data.len() < 12 {
        StreamCounters { packets_lost: (c1.packets_lost + 1) as u32, ..c1 }
    } else {
        let h = header_of(data);
        if data.len() < 12 + h.payload_size {
            c
        } else {
            let c2 = StreamCounters {
                packets_lost: (c1.packets_lost + sequence_gap(c.last_sequence, h.sequence)) as u32,
                last_sequence: h.sequence,
                ..c1
            };
            let payload = data.subrange(12, 12 + h.payload_size);
            if h.packet_type == FRAME_DATA {
                StreamCounters {
                    frames_received: (c2.frames_received + 1) as u32,
                    packets_lost: if read_frame(payload) is Err { (c2.packets_lost + 1) as u32 } else { c2.packets_lost },
                    ..c2
                }
            } else if h.packet_type == FRAME_DATA_COMPRESSED {
                StreamCounters { frames_received: (c2.frames_received + 1) as u32, ..c2 }
            } else if h.packet_type == SPECTRUM_DATA {
                StreamCounters {
                    spectrum_received: (c2.spectrum_received + 1) as u32,
                    packets_lost: if read_spectrum(payload) is Err { (c2.packets_lost + 1) as u32 } else { c2.packets_lost },
                    ..c2
                }
            } else {
                c2
            }
        }
    }
}

/// None of the counters can overflow on the datagram `data`.
pub open spec fn counters_have_room(c: StreamCounters, data: Seq<u8>) -> bool {
    &&& c.packets_received < u32::MAX
    &&& c.frames_received < u32::MAX
    &&& c.spectrum_received < u32::MAX
    &&& c.bytes_received + data.len() <= u64::MAX
    &&& c.last_sequence < u32::MAX
    &&& data.len() >= 12 ==> c.packets_lost + sequence_gap(c.last_sequence, header_of(data).sequence) + 1 <= u32::MAX
    &&& data.len() < 12 ==> c.packets_lost < u32::MAX
    &&& data.len() >= 12 && data.len() < 12 + header_of(data).payload_size ==> header_of(data).payload_size + 12 <= u16::MAX
}

impl StreamCounters {
    /// Counters of a stream that has received nothing.
    pub fn new() -> (c: Self)
        ensures
            c == (StreamCounters { packets_received: 0, frames_received: 0, spectrum_received: 0, bytes_received: 0, packets_lost: 0, last_sequence: 0 }),
    {
        StreamCounters { packets_received: 0, frames_received: 0, spectrum_received: 0, bytes_received: 0, packets_lost: 0, last_sequence: 0 }
    }

    /// Accounts for the datagram `data` (see `counters_after`) and says what
    /// it carries.
    pub fn on_packet(&mut self, data: &[u8]) -> (event: StreamEvent)
        requires
            counters_have_room(*old(self), data@),
        ensures
            *final(self) == counters_after(*old(self), data@),
            data@.len() < 12 ==> event is BadHeader,
            data@.len() >= 12 && data@.len() < 12 + header_of(data@).payload_size ==> event is Dropped,
            data@.len() >= 12 && data@.len() >= 12 + header_of(data@).payload_size ==> ({
                let h = header_of(data@);
                let payload = data@.subrange(12, 12 + h.payload_size);
                if h.packet_type == FRAME_DATA {
                    match (event, read_frame(payload)) {
                        (StreamEvent::Frame(f), Ok(m)) => (f.width, f.height, f.format, f.data@) == m,
                        (StreamEvent::BadFrame(e), Err(m)) => e == m,
                        _ => false,
                    }
                } else if h.packet_type == FRAME_DATA_COMPRESSED {
                    event matches StreamEvent::CompressedFrame(v) && v@ == payload
                } else if h.packet_type == SPECTRUM_DATA {
                    match (event, read_spectrum(payload)) {
                        (StreamEvent::Spectrum(b), Ok(m)) => b@ == m,
                        (StreamEvent::BadSpectrum(e), Err(m)) => e == m,
                        _ => false,
                    }
                } else {
                    event matches StreamEvent::Other(t) && t == h.packet_type
                }
            }),
    {
        let len = data.len();
        let mut ctx = *self;
        ctx.packets_received = ctx.packets_received + 1;
        ctx.bytes_received = ctx.bytes_received + len as u64;
        let header = match PacketHeader::parse(data) {
            Ok(h) => h,
            Err(_) => {
                ctx.packets_lost = ctx.packets_lost + 1;
                *self = ctx;
                return StreamEvent::BadHeader;
            },
        };
        if header.validate(len).is_err() {
            return StreamEvent::Dropped;
        }
        if ctx.last_sequence > 0 && header.sequence > ctx.last_sequence + 1 {
            let lost = header.sequence - ctx.last_sequence - 1;
            ctx.packets_lost = ctx.packets_lost + lost;
        }
        ctx.last_sequence = header.sequence;
        let payload = copy_range(data, 12, 12 + header.payload_size as usize);
        let event = if header.packet_type == FRAME_DATA {
            ctx.frames_received = ctx.frames_received + 1;
            match parse_frame_data(payload.as_slice()) {
                Ok(frame) => StreamEvent::Frame(frame),
                Err(e) => {
                    ctx.packets_lost = ctx.packets_lost + 1;
                    StreamEvent::BadFrame(e)
                },
            }
        } else if header.packet_type == FRAME_DATA_COMPRESSED {
            ctx.frames_received = ctx.frames_received + 1;
            StreamEvent::CompressedFrame(payload)
        } else if header.packet_type == SPECTRUM_DATA {
            ctx.spectrum_received = ctx.spectrum_received + 1;
            match parse_spectrum_data(payload.as_slice()) {
                Ok(bands) => StreamEvent::Spectrum(bands),
                Err(e) => {
                    ctx.packets_lost = ctx.packets_lost + 1;
                    StreamEvent::BadSpectrum(e)
                },
            }
        } else {
            StreamEvent::Other(header.packet_type)
        };
        *self = ctx;
        event
    }

    /// Accounts for a failed receive; says whether the stream must stop
    /// (after more than 100 lost packets).
    pub fn on_receive_error(&mut self) -> (stop: bool)
        requires
            old(self).packets_lost < u32::MAX,
        ensures
            *final(self) == (StreamCounters { packets_lost: (old(self).packets_lost + 1) as u32, ..*old(self) }),
            stop == (final(self).packets_lost > 100),
    {
        self.packets_lost = self.packets_lost + 1;
        self.packets_lost > 100
    }
}

} // verus!

verus! {

/// The header of a packet the server sends reads, on the client, as that
/// packet's fields, and the payload follows it, when the payload fits the
/// 16-bit length field.
pub proof fn lemma_client_reads_server_header(p: PacketModel)
    requires
        p.payload.len() <= u16::MAX,
    ensures
        header_of(packet_bytes(p)) == (PacketHeader {
            packet_type: type_code(p.packet_type),
            flags: p.flags,
            sequence: p.sequence,
            fragment_id: p.fragment_id,
            fragment_count: p.fragment_count,
            payload_size: p.payload.len() as u16,
        }),
        packet_bytes(p).subrange(12, 12 + p.payload.len() as int) == p.payload,
{
    lemma_le32_roundtrip(p.sequence);
    lemma_le16_roundtrip(p.fragment_id);
    lemma_le16_roundtrip(p.fragment_count);
    lemma_le16_roundtrip(p.payload.len() as u16);
    assert(packet_bytes(p).subrange(12, 12 + p.payload.len() as int) =~= p.payload);
}

/// A spectrum the server sends reads, on the client, as its bands, when
/// there are 1 to 1024 of them.
pub proof fn lemma_client_reads_server_spectrum(bands: Seq<u32>)
    requires
        1 <= bands.len() <= 1024,
    ensures
        read_spectrum(spectrum_payload(bands)) == Ok::<Seq<u32>, SpectrumDataError>(bands),
{
    lemma_spectrum_roundtrip(bands);
    let p = spectrum_payload(bands);
    let n = from_le16(p[0], p[1]);
    assert(parse_spectrum(p) == Some(bands));
    assert(p.len() == 2 + 4 * n);
    let r = Seq::new(n as nat, |i: int| from_le32(p[2 + 4 * i], p[3 + 4 * i], p[4 + 4 * i], p[5 + 4 * i]));
    assert(r =~= bands);
}

/// A frame the server sends in RGB or RGBA reads, on the client, as its
/// dimensions, layout byte and pixels, when both sides are 1 to 1024 pixels
/// and the pixels fill the frame exactly.
pub proof fn lemma_client_reads_server_frame(f: FrameModel)
    requires
        1 <= f.width <= 1024,
        1 <= f.height <= 1024,
        f.format == FrameFormat::RGB || f.format == FrameFormat::RGBA,
        f.data.len() == f.width * f.height * bytes_per_pixel(format_code(f.format)),
    ensures
        read_frame(frame_payload(f)) == Ok::<(u16, u16, u8, Seq<u8>), FrameDataError>(
            (f.width, f.height, format_code(f.format), f.data),
        ),
{
    lemma_le16_roundtrip(f.width);
    lemma_le16_roundtrip(f.height);
    let p = frame_payload(f);
    assert(p.subrange(5, 5 + f.data.len() as int) =~= f.data);
}

} // verus!

