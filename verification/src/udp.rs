//! The UDP protocol between the server and its remote clients: a 12-byte
//! header (type, flags, sequence number, fragment id and count, payload
//! length, all little endian) followed by the payload.  Payloads carry
//! commands, frames and spectra.
use vstd::prelude::*;
use vstd::utf8::{valid_utf8, decode_utf8, encode_utf8, encode_utf8_decode_utf8, encode_utf8_valid_utf8};
use crate::wire::{le16, le32, from_le16, from_le32, lemma_le16_roundtrip, lemma_le32_roundtrip,
    push_le16, push_le32, push_all, u16_from_le, u32_from_le};
use crate::text::string_from_utf8;

verus! {

broadcast use {encode_utf8_decode_utf8, encode_utf8_valid_utf8};

/// Largest datagram the server sends (a typical MTU less the IP and UDP
/// headers).
pub const MAX_PACKET_SIZE: usize = 1472;

/// Length of the packet header.
pub const HEADER_SIZE: usize = 12;

/// The kinds of packet.
#[derive(Debug, Clone, Copy, PartialEq, Eq, Structural)]
pub enum PacketType {
    Connect,
    Disconnect,
    Ping,
    Pong,
    Ack,
    Command,
    FrameData,
    FrameDataCompressed,
    SpectrumData,
}

/// The byte that stands for a packet type on the wire.
pub open spec fn type_code(t: PacketType) -> u8 {
    match t {
        PacketType::Connect => 0x01,
        PacketType::Disconnect => 0x02,
        PacketType::Ping => 0x03,
        PacketType::Pong => 0x04,
        PacketType::Ack => 0x05,
        PacketType::Command => 0x10,
        PacketType::FrameData => 0x20,
        PacketType::FrameDataCompressed => 0x21,
        PacketType::SpectrumData => 0x30,
    }
}

/// The packet type a byte stands for, if any.
pub open spec fn type_of_code(b: u8) -> Option<PacketType> {
    if b == 0x01 {
        Some(PacketType::Connect)
    } else if b == 0x02 {
        Some(PacketType::Disconnect)
    } else if b == 0x03 {
        Some(PacketType::Ping)
    } else if b == 0x04 {
        Some(PacketType::Pong)
    } else if b == 0x05 {
        Some(PacketType::Ack)
    } else if b == 0x10 {
        Some(PacketType::Command)
    } else if b == 0x20 {
        Some(PacketType::FrameData)
    } else if b == 0x21 {
        Some(PacketType::FrameDataCompressed)
    } else if b == 0x30 {
        Some(PacketType::SpectrumData)
    } else {
        None
    }
}

/// Reading back the code of a packet type gives the type.
pub proof fn lemma_type_code_roundtrip(t: PacketType)
    ensures
        type_of_code(type_code(t)) == Some(t),
{
}

/// A byte stands for a packet type exactly when it is the code of that type:
/// the nine codes name their types and every other byte names none.
pub proof fn lemma_type_of_code_inverse(b: u8)
    ensures
        type_of_code(b) matches Some(t) ==> type_code(t) == b,
        type_of_code(b) is None <==> !(b == 0x01 || b == 0x02 || b == 0x03 || b == 0x04 || b == 0x05
            || b == 0x10 || b == 0x20 || b == 0x21 || b == 0x30),
{
}

impl PacketType {
    /// The byte that stands for this type on the wire.
    pub fn code(&self) -> (b: u8)
        ensures
            b == type_code(*self),
    {
        match self {
            PacketType::Connect => 0x01,
            PacketType::Disconnect => 0x02,
            PacketType::Ping => 0x03,
            PacketType::Pong => 0x04,
            PacketType::Ack => 0x05,
            PacketType::Command => 0x10,
            PacketType::FrameData => 0x20,
            PacketType::FrameDataCompressed => 0x21,
            PacketType::SpectrumData => 0x30,
        }
    }

    /// The packet type a byte stands for; `None` for an unknown byte.
    pub fn from_u8(value: u8) -> (r: Option<Self>)
        ensures
            r == type_of_code(value),
    {
        match value {
            0x01 => Some(PacketType::Connect),
            0x02 => Some(PacketType::Disconnect),
            0x03 => Some(PacketType::Ping),
            0x04 => Some(PacketType::Pong),
            0x05 => Some(PacketType::Ack),
            0x10 => Some(PacketType::Command),
            0x20 => Some(PacketType::FrameData),
            0x21 => Some(PacketType::FrameDataCompressed),
            0x30 => Some(PacketType::SpectrumData),
            _ => None,
        }
    }
}

/// The flag bits a packet header knows: compressed (1), fragmented (2), last
/// fragment (4) and acknowledgement requested (8).
pub open spec fn known_flags(bits: u8) -> bool {
    bits < 16
}

/// A set of packet flags; only the four known bits can be set.
#[derive(Debug, Clone, Copy, PartialEq, Eq, Structural)]
pub struct PacketFlags {
    bits: u8,
}

impl PacketFlags {
    /// The bits of this set.
    pub closed spec fn spec_bits(&self) -> u8 {
        self.bits
    }

    /// Only known bits are set.
    pub closed spec fn wf(&self) -> bool {
        known_flags(self.bits)
    }

    /// The empty set.
    pub fn none() -> (f: Self)
        ensures
            f.spec_bits() == 0,
            f.wf(),
    {
        PacketFlags { bits: 0 }
    }

    /// The payload is compressed.
    pub fn compressed() -> (f: Self)
        ensures
            f.spec_bits() == 1,
            f.wf(),
    {
        PacketFlags { bits: 0x01 }
    }

    /// The packet is one fragment of a larger payload.
    pub fn fragmented() -> (f: Self)
        ensures
            f.spec_bits() == 2,
            f.wf(),
    {
        PacketFlags { bits: 0x02 }
    }

    /// The packet is the last fragment of a larger payload.
    pub fn last_fragment() -> (f: Self)
        ensures
            f.spec_bits() == 4,
            f.wf(),
    {
        PacketFlags { bits: 0x04 }
    }

    /// The sender asks for an acknowledgement.
    pub fn requires_ack() -> (f: Self)
        ensures
            f.spec_bits() == 8,
            f.wf(),
    {
        PacketFlags { bits: 0x08 }
    }

    /// The known bits of `bits`; unknown bits are dropped.
    pub fn from_bits_truncate(bits: u8) -> (f: Self)
        ensures
            f.spec_bits() == bits & 0x0f,
            f.wf(),
    {
        let b = bits & 0x0f;
        assert(bits & 0x0f < 16) by (bit_vector);
        PacketFlags { bits: b }
    }

    /// The bits of this set.
    pub fn bits(&self) -> (b: u8)
        ensures
            b == self.spec_bits(),
    {
        self.bits
    }

    /// Whether every flag of `other` is in this set.
    pub fn contains(&self, other: PacketFlags) -> (r: bool)
        ensures
            r == (self.spec_bits() & other.spec_bits() == other.spec_bits()),
    {
        self.bits & other.bits == other.bits
    }

    /// The flags of both sets.
    pub fn union(&self, other: PacketFlags) -> (f: Self)
        requires
            self.wf(),
            other.wf(),
        ensures
            f.spec_bits() == self.spec_bits() | other.spec_bits(),
            f.wf(),
    {
        let a = self.bits;
        let b = other.bits;
        assert(a < 16 && b < 16 ==> a | b < 16) by (bit_vector);
        PacketFlags { bits: a | b }
    }
}

/// The contents of a packet.
pub struct PacketModel {
    pub packet_type: PacketType,
    pub flags: u8,
    pub sequence: u32,
    pub fragment_id: u16,
    pub fragment_count: u16,
    pub payload: Seq<u8>,
}

/// A packet of the protocol.
#[derive(Debug, Clone)]
pub struct UdpPacket {
    pub packet_type: PacketType,
    pub flags: PacketFlags,
    pub sequence: u32,
    pub fragment_id: u16,
    pub fragment_count: u16,
    pub payload: Vec<u8>,
}

impl View for UdpPacket {
    type V = PacketModel;

    open spec fn view(&self) -> PacketModel {
        PacketModel {
            packet_type: self.packet_type,
            flags: self.flags.spec_bits(),
            sequence: self.sequence,
            fragment_id: self.fragment_id,
            fragment_count: self.fragment_count,
            payload: self.payload@,
        }
    }
}

/// The bytes of a packet: the 12-byte header then the payload.  The length
/// field keeps the low 16 bits of the payload length.
pub open spec fn packet_bytes(p: PacketModel) -> Seq<u8> {
    seq![type_code(p.packet_type), p.flags] + le32(p.sequence) + le16(p.fragment_id) + le16(p.fragment_count)
        + le16((p.payload.len() % 65536) as u16) + p.payload
}

/// Why bytes could not be read as a packet.
#[derive(Debug, Clone, Copy, PartialEq, Eq, Structural)]
pub enum PacketError {
    /// Fewer than the 12 bytes of a header.
    TooSmall,
    /// The first byte names no packet type.
    InvalidType,
    /// Fewer payload bytes than the header announces.
    Truncated,
}

/// The packet that `data` holds: its header, with unknown flag bits dropped,
/// and as many payload bytes as the header announces; bytes after them are
/// ignored.
pub open spec fn parse_packet(data: Seq<u8>) -> Result<PacketModel, PacketError> {
    if data.len() < 12 {
        Err(PacketError::TooSmall)
    } else if type_of_code(data[0]) is None {
        Err(PacketError::InvalidType)
    } else {
        let len = from_le16(data[10], data[11]);
        if data.len() < 12 + len {
            Err(PacketError::Truncated)
        } else {
            Ok(PacketModel {
                packet_type: type_of_code(data[0]).unwrap(),
                flags: data[1] & 0x0f,
                sequence: from_le32(data[2], data[3], data[4], data[5]),
                fragment_id: from_le16(data[6], data[7]),
                fragment_count: from_le16(data[8], data[9]),
                payload: data.subrange(12, 12 + len),
            })
        }
    }
}

/// Reading back the bytes of a packet gives the packet, when its payload fits
/// the 16-bit length field and it carries only known flags.
pub proof fn lemma_packet_roundtrip(p: PacketModel)
    requires
        p.payload.len() <= u16::MAX,
        known_flags(p.flags),
    ensures
        parse_packet(packet_bytes(p)) == Ok::<PacketModel, PacketError>(p),
{
    let b = packet_bytes(p);
    lemma_le32_roundtrip(p.sequence);
    lemma_le16_roundtrip(p.fragment_id);
    lemma_le16_roundtrip(p.fragment_count);
    lemma_le16_roundtrip((p.payload.len() % 65536) as u16);
    lemma_type_code_roundtrip(p.packet_type);
    let f = p.flags;
    assert(f < 16 ==> f & 0x0f == f) by (bit_vector);
    assert(b[0] == type_code(p.packet_type));
    assert(b[1] == p.flags);
    assert(b.subrange(2, 6) == le32(p.sequence));
    assert(b.subrange(12, 12 + p.payload.len() as int) =~= p.payload);
    let q = parse_packet(b).unwrap();
    assert(q.payload =~= p.payload);
}

/// A packet with one fragment, no flags and the given payload.
pub open spec fn plain_packet(t: PacketType, sequence: u32, payload: Seq<u8>) -> PacketModel {
    PacketModel { packet_type: t, flags: 0, sequence, fragment_id: 0, fragment_count: 1, payload }
}

impl UdpPacket {
    /// A single-fragment packet without flags.
    pub fn new(packet_type: PacketType, sequence: u32, payload: Vec<u8>) -> (p: Self)
        ensures
            p@ == plain_packet(packet_type, sequence, payload@),
            p.flags.wf(),
    {
        UdpPacket { packet_type, flags: PacketFlags::none(), sequence, fragment_id: 0, fragment_count: 1, payload }
    }

    /// The packet a client opens a session with; it asks for compressed
    /// frames when `compression_enabled`.
    pub fn new_connect(compression_enabled: bool) -> (p: Self)
        ensures
            p@ == (PacketModel {
                flags: if compression_enabled { 1u8 } else { 0u8 },
                ..plain_packet(PacketType::Connect, 0, Seq::empty())
            }),
            p.flags.wf(),
    {
        let mut flags = PacketFlags::none();
        if compression_enabled {
            flags = flags.union(PacketFlags::compressed());
            assert(0u8 | 1u8 == 1u8) by (bit_vector);
        }
        UdpPacket { packet_type: PacketType::Connect, flags, sequence: 0, fragment_id: 0, fragment_count: 1, payload: Vec::new() }
    }

    /// The acknowledgement of the packet numbered `sequence`.
    pub fn new_ack(sequence: u32) -> (p: Self)
        ensures
            p@ == plain_packet(PacketType::Ack, sequence, Seq::empty()),
            p.flags.wf(),
    {
        UdpPacket { packet_type: PacketType::Ack, flags: PacketFlags::none(), sequence, fragment_id: 0, fragment_count: 1, payload: Vec::new() }
    }

    /// The answer to the ping numbered `sequence`.
    pub fn new_pong(sequence: u32) -> (p: Self)
        ensures
            p@ == plain_packet(PacketType::Pong, sequence, Seq::empty()),
            p.flags.wf(),
    {
        UdpPacket { packet_type: PacketType::Pong, flags: PacketFlags::none(), sequence, fragment_id: 0, fragment_count: 1, payload: Vec::new() }
    }

    /// The bytes of this packet (see `packet_bytes`); never fails.
    pub fn to_bytes(&self) -> (r: Result<Vec<u8>, PacketError>)
        ensures
            r matches Ok(b) && b@ == packet_bytes(self@),
    {
        let mut buffer: Vec<u8> = Vec::with_capacity(16);
        buffer.push(self.packet_type.code());
        buffer.push(self.flags.bits());
        push_le32(&mut buffer, self.sequence);
        push_le16(&mut buffer, self.fragment_id);
        push_le16(&mut buffer, self.fragment_count);
        let len = self.payload.len();
        let len16: u16 = (len % 65536) as u16;
        push_le16(&mut buffer, len16);
        push_all(&mut buffer, self.payload.as_slice());
        assert(buffer@ =~= packet_bytes(self@));
        Ok(buffer)
    }

    /// The packet `data` holds (see `parse_packet`).
    pub fn from_bytes(data: &[u8]) -> (r: Result<Self, PacketError>)
        ensures
            match (r, parse_packet(data@)) {
                (Ok(p), Ok(m)) => p@ == m && p.flags.wf(),
                (Err(e), Err(f)) => e == f,
                _ => false,
            },
    {
        if data.len() < 12 {
            return Err(PacketError::TooSmall);
        }
        let packet_type = match PacketType::from_u8(data[0]) {
            Some(t) => t,
            None => return Err(PacketError::InvalidType),
        };
        let flags = PacketFlags::from_bits_truncate(data[1]);
        let sequence = u32_from_le(data[2], data[3], data[4], data[5]);
        let fragment_id = u16_from_le(data[6], data[7]);
        let fragment_count = u16_from_le(data[8], data[9]);
        let payload_len = u16_from_le(data[10], data[11]) as usize;
        if data.len() < 12 + payload_len {
            return Err(PacketError::Truncated);
        }
        let mut payload: Vec<u8> = Vec::with_capacity(payload_len);
        let end = 12 + payload_len;
        let mut i: usize = 12;
        while i < end
            invariant
                end == 12 + payload_len,
                12 <= i <= end <= data@.len(),
                payload@ == data@.subrange(12, i as int),
            decreases end - i,
        {
            payload.push(data[i]);
            i = i + 1;
            assert(payload@ =~= data@.subrange(12, i as int));
        }
        Ok(UdpPacket { packet_type, flags, sequence, fragment_id, fragment_count, payload })
    }
}

} // verus!

verus! {

/// The contents of a command.
pub enum CommandModel {
    SetEffect(usize),
    SetColorMode(Seq<char>),
    SetCustomColor(u32, u32, u32),
    SetParameter(Seq<char>, Seq<char>),
}

/// A command a client sends to the server.  A custom colour travels as the
/// bit patterns of three IEEE-754 single-precision numbers.
#[derive(Debug, Clone)]
pub enum UdpCommand {
    SetEffect(usize),
    SetColorMode(String),
    SetCustomColor(u32, u32, u32),
    SetParameter(String, String),
}

impl View for UdpCommand {
    type V = CommandModel;

    open spec fn view(&self) -> CommandModel {
        match self {
            UdpCommand::SetEffect(id) => CommandModel::SetEffect(*id),
            UdpCommand::SetColorMode(m) => CommandModel::SetColorMode(m@),
            UdpCommand::SetCustomColor(r, g, b) => CommandModel::SetCustomColor(*r, *g, *b),
            UdpCommand::SetParameter(n, v) => CommandModel::SetParameter(n@, v@),
        }
    }
}

/// A text prefixed with the low 16 bits of the length of its UTF-8 encoding.
pub open spec fn sized_text(t: Seq<char>) -> Seq<u8> {
    le16((encode_utf8(t).len() % 65536) as u16) + encode_utf8(t)
}

/// The payload of a command: a command byte (1 effect, 2 colour mode,
/// 3 custom colour, 4 parameter) then its arguments.  An effect index keeps
/// its low 32 bits.
pub open spec fn command_payload(c: CommandModel) -> Seq<u8> {
    match c {
        CommandModel::SetEffect(id) => seq![1u8] + le32(id as u32),
        CommandModel::SetColorMode(m) => seq![2u8] + encode_utf8(m),
        CommandModel::SetCustomColor(r, g, b) => seq![3u8] + le32(r) + le32(g) + le32(b),
        CommandModel::SetParameter(n, v) => seq![4u8] + sized_text(n) + sized_text(v),
    }
}

/// The text of `bytes`, if they are valid UTF-8.
pub open spec fn text_of(bytes: Seq<u8>) -> Option<Seq<char>> {
    if valid_utf8(bytes) { Some(decode_utf8(bytes)) } else { None }
}

/// The parameter command in `data` (whose first byte is 4): a sized name then
/// a sized value, both valid UTF-8.
pub open spec fn parse_parameter(data: Seq<u8>) -> Option<CommandModel> {
    if data.len() < 3 {
        None
    } else {
        let nl = from_le16(data[1], data[2]) as int;
        if data.len() < 3 + nl {
            None
        } else if text_of(data.subrange(3, 3 + nl)) is None {
            None
        } else if data.len() < 5 + nl {
            None
        } else {
            let vl = from_le16(data[3 + nl], data[4 + nl]) as int;
            if data.len() < 5 + nl + vl {
                None
            } else if text_of(data.subrange(5 + nl, 5 + nl + vl)) is None {
                None
            } else {
                Some(CommandModel::SetParameter(
                    text_of(data.subrange(3, 3 + nl)).unwrap(),
                    text_of(data.subrange(5 + nl, 5 + nl + vl)).unwrap(),
                ))
            }
        }
    }
}

/// The command a payload holds; `None` when it is empty, names no command,
/// is too short for its arguments, or holds text that is not UTF-8.  Bytes
/// after the arguments are ignored, except for a colour mode, which takes all
/// the bytes after the command byte.
pub open spec fn parse_command(data: Seq<u8>) -> Option<CommandModel> {
    if data.len() == 0 {
        None
    } else if data[0] == 1 {
        if data.len() < 5 {
            None
        } else {
            Some(CommandModel::SetEffect(from_le32(data[1], data[2], data[3], data[4]) as usize))
        }
    } else if data[0] == 2 {
        match text_of(data.subrange(1, data.len() as int)) {
            Some(m) => Some(CommandModel::SetColorMode(m)),
            None => None,
        }
    } else if data[0] == 3 {
        if data.len() < 13 {
            None
        } else {
            Some(CommandModel::SetCustomColor(
                from_le32(data[1], data[2], data[3], data[4]),
                from_le32(data[5], data[6], data[7], data[8]),
                from_le32(data[9], data[10], data[11], data[12]),
            ))
        }
    } else if data[0] == 4 {
        parse_parameter(data)
    } else {
        None
    }
}

/// Reading back the payload of a command gives the command, when its effect
/// index fits 32 bits and its texts fit the 16-bit length fields.
pub proof fn lemma_command_roundtrip(c: CommandModel)
    requires
        c matches CommandModel::SetEffect(id) ==> id <= u32::MAX,
        c matches CommandModel::SetParameter(n, v) ==> encode_utf8(n).len() <= u16::MAX && encode_utf8(v).len() <= u16::MAX,
    ensures
        parse_command(command_payload(c)) == Some(c),
{
    let p = command_payload(c);
    match c {
        CommandModel::SetEffect(id) => {
            lemma_le32_roundtrip(id as u32);
        },
        CommandModel::SetColorMode(m) => {
            assert(p.subrange(1, p.len() as int) =~= encode_utf8(m));
        },
        CommandModel::SetCustomColor(r, g, b) => {
            lemma_le32_roundtrip(r);
            lemma_le32_roundtrip(g);
            lemma_le32_roundtrip(b);
        },
        CommandModel::SetParameter(n, v) => {
            let en = encode_utf8(n);
            let ev = encode_utf8(v);
            lemma_le16_roundtrip(en.len() as u16);
            lemma_le16_roundtrip(ev.len() as u16);
            let nl = en.len() as int;
            assert(p =~= seq![4u8] + le16(en.len() as u16) + en + le16(ev.len() as u16) + ev);
            assert(p.subrange(3, 3 + nl) =~= en);
            assert(p[3 + nl] == le16(ev.len() as u16)[0]);
            assert(p[4 + nl] == le16(ev.len() as u16)[1]);
            assert(p.subrange(5 + nl, 5 + nl + ev.len()) =~= ev);
        },
    }
}

/// Copies `data[start..end]`.
pub(crate) fn copy_range(data: &[u8], start: usize, end: usize) -> (r: Vec<u8>)
    requires
        start <= end <= data@.len(),
    ensures
        r@ == data@.subrange(start as int, end as int),
{
    let mut out: Vec<u8> = Vec::with_capacity(end - start);
    let mut i = start;
    while i < end
        invariant
            start <= i <= end <= data@.len(),
            out@ == data@.subrange(start as int, i as int),
        decreases end - i,
    {
        out.push(data[i]);
        i = i + 1;
        assert(out@ =~= data@.subrange(start as int, i as int));
    }
    out
}

/// Appends a text prefixed with the low 16 bits of its encoded length.
fn push_sized_text(out: &mut Vec<u8>, t: &String)
    ensures
        final(out)@ == old(out)@ + sized_text(t@),
{
    let bytes = t.as_str().as_bytes();
    let len16: u16 = (bytes.len() % 65536) as u16;
    push_le16(out, len16);
    push_all(out, bytes);
    assert(final(out)@ =~= old(out)@ + sized_text(t@));
}

impl UdpCommand {
    /// The payload of this command (see `command_payload`).
    pub fn to_payload(&self) -> (data: Vec<u8>)
        ensures
            data@ == command_payload(self@),
    {
        match self {
            UdpCommand::SetEffect(id) => {
                let mut data: Vec<u8> = vec![0x01];
                push_le32(&mut data, *id as u32);
                data
            },
            UdpCommand::SetColorMode(mode) => {
                let mut data: Vec<u8> = vec![0x02];
                push_all(&mut data, mode.as_str().as_bytes());
                data
            },
            UdpCommand::SetCustomColor(r, g, b) => {
                let mut data: Vec<u8> = vec![0x03];
                push_le32(&mut data, *r);
                push_le32(&mut data, *g);
                push_le32(&mut data, *b);
                data
            },
            UdpCommand::SetParameter(name, value) => {
                let mut data: Vec<u8> = vec![0x04];
                push_sized_text(&mut data, name);
                push_sized_text(&mut data, value);
                assert(data@ =~= command_payload(self@));
                data
            },
        }
    }

    /// The command `data` holds (see `parse_command`).
    pub fn from_payload(data: &[u8]) -> (r: Option<Self>)
        ensures
            match (r, parse_command(data@)) {
                (Some(c), Some(m)) => c@ == m,
                (None, None) => true,
                _ => false,
            },
    {
        if data.len() == 0 {
            return None;
        }
        let len = data.len();
        let cmd = data[0];
        if cmd == 0x01 {
            if len < 5 {
                return None;
            }
            Some(UdpCommand::SetEffect(u32_from_le(data[1], data[2], data[3], data[4]) as usize))
        } else if cmd == 0x02 {
            match string_from_utf8(copy_range(data, 1, len)) {
                Some(mode) => Some(UdpCommand::SetColorMode(mode)),
                None => None,
            }
        } else if cmd == 0x03 {
            if len < 13 {
                return None;
            }
            Some(UdpCommand::SetCustomColor(
                u32_from_le(data[1], data[2], data[3], data[4]),
                u32_from_le(data[5], data[6], data[7], data[8]),
                u32_from_le(data[9], data[10], data[11], data[12]),
            ))
        } else if cmd == 0x04 {
            if len < 3 {
                return None;
            }
            let nl = u16_from_le(data[1], data[2]) as usize;
            if len < 3 + nl {
                return None;
            }
            let name = match string_from_utf8(copy_range(data, 3, 3 + nl)) {
                Some(s) => s,
                None => return None,
            };
            if len < 5 + nl {
                return None;
            }
            let vl = u16_from_le(data[3 + nl], data[4 + nl]) as usize;
            if len < 5 + nl + vl {
                return None;
            }
            let value = match string_from_utf8(copy_range(data, 5 + nl, 5 + nl + vl)) {
                Some(s) => s,
                None => return None,
            };
            Some(UdpCommand::SetParameter(name, value))
        } else {
            None
        }
    }
}

/// Pixel layouts of a frame.
#[derive(Debug, Clone, Copy, PartialEq, Eq, Structural)]
pub enum FrameFormat {
    RGB,
    RGBA,
    BGR,
    BGRA,
}

/// The byte that stands for a pixel layout.
pub open spec fn format_code(f: FrameFormat) -> u8 {
    match f {
        FrameFormat::RGB => 0x01,
        FrameFormat::RGBA => 0x02,
        FrameFormat::BGR => 0x03,
        FrameFormat::BGRA => 0x04,
    }
}

/// The pixel layout a byte stands for, if any.
pub open spec fn format_of_code(b: u8) -> Option<FrameFormat> {
    if b == 1 {
        Some(FrameFormat::RGB)
    } else if b == 2 {
        Some(FrameFormat::RGBA)
    } else if b == 3 {
        Some(FrameFormat::BGR)
    } else if b == 4 {
        Some(FrameFormat::BGRA)
    } else {
        None
    }
}

impl FrameFormat {
    /// The byte that stands for this layout.
    pub fn code(&self) -> (b: u8)
        ensures
            b == format_code(*self),
    {
        match self {
            FrameFormat::RGB => 0x01,
            FrameFormat::RGBA => 0x02,
            FrameFormat::BGR => 0x03,
            FrameFormat::BGRA => 0x04,
        }
    }
}

/// The contents of a frame payload.
pub struct FrameModel {
    pub width: u16,
    pub height: u16,
    pub format: FrameFormat,
    pub data: Seq<u8>,
}

/// A frame of pixels.
#[derive(Debug, Clone)]
pub struct FrameData {
    pub width: u16,
    pub height: u16,
    pub format: FrameFormat,
    pub data: Vec<u8>,
}

impl View for FrameData {
    type V = FrameModel;

    open spec fn view(&self) -> FrameModel {
        FrameModel { width: self.width, height: self.height, format: self.format, data: self.data@ }
    }
}

/// The payload of a frame: width, height, layout byte, then the pixel bytes.
pub open spec fn frame_payload(f: FrameModel) -> Seq<u8> {
    le16(f.width) + le16(f.height) + seq![format_code(f.format)] + f.data
}

/// The frame a payload holds: `None` when it has fewer than five bytes or an
/// unknown layout byte; every byte after the header is pixel data.
pub open spec fn parse_frame(data: Seq<u8>) -> Option<FrameModel> {
    if data.len() < 5 || format_of_code(data[4]) is None {
        None
    } else {
        Some(FrameModel {
            width: from_le16(data[0], data[1]),
            height: from_le16(data[2], data[3]),
            format: format_of_code(data[4]).unwrap(),
            data: data.subrange(5, data.len() as int),
        })
    }
}

/// Reading back the payload of a frame gives the frame.
pub proof fn lemma_frame_roundtrip(f: FrameModel)
    ensures
        parse_frame(frame_payload(f)) == Some(f),
{
    lemma_le16_roundtrip(f.width);
    lemma_le16_roundtrip(f.height);
    let p = frame_payload(f);
    assert(p.subrange(5, p.len() as int) =~= f.data);
}

impl FrameData {
    /// The payload of this frame (see `frame_payload`).
    pub fn to_payload(&self) -> (payload: Vec<u8>)
        ensures
            payload@ == frame_payload(self@),
    {
        let mut payload: Vec<u8> = Vec::with_capacity(5);
        push_le16(&mut payload, self.width);
        push_le16(&mut payload, self.height);
        payload.push(self.format.code());
        push_all(&mut payload, self.data.as_slice());
        assert(payload@ =~= frame_payload(self@));
        payload
    }

    /// The frame a payload holds (see `parse_frame`).
    pub fn from_payload(data: &[u8]) -> (r: Option<Self>)
        ensures
            match (r, parse_frame(data@)) {
                (Some(f), Some(m)) => f@ == m,
                (None, None) => true,
                _ => false,
            },
    {
        if data.len() < 5 {
            return None;
        }
        let width = u16_from_le(data[0], data[1]);
        let height = u16_from_le(data[2], data[3]);
        let format = match data[4] {
            0x01 => FrameFormat::RGB,
            0x02 => FrameFormat::RGBA,
            0x03 => FrameFormat::BGR,
            0x04 => FrameFormat::BGRA,
            _ => return None,
        };
        Some(FrameData { width, height, format, data: copy_range(data, 5, data.len()) })
    }
}

/// Spectrum bands, each the bit pattern of an IEEE-754 single-precision
/// number.
#[derive(Debug, Clone)]
pub struct SpectrumData {
    pub bands: Vec<u32>,
}

/// The encodings of the first `n` bands, one after the other.
pub open spec fn bands_bytes(bands: Seq<u32>, n: nat) -> Seq<u8>
    decreases n,
{
    if n == 0 { Seq::empty() } else { bands_bytes(bands, (n - 1) as nat) + le32(bands[n - 1]) }
}

/// The payload of a spectrum: the low 16 bits of the band count, then each
/// band in four little-endian bytes.
pub open spec fn spectrum_payload(bands: Seq<u32>) -> Seq<u8> {
    le16((bands.len() % 65536) as u16) + bands_bytes(bands, bands.len())
}

/// The band starting at byte `2 + 4 i` of a spectrum payload.
pub open spec fn band_at(data: Seq<u8>, i: int) -> u32 {
    from_le32(data[2 + 4 * i], data[3 + 4 * i], data[4 + 4 * i], data[5 + 4 * i])
}

/// The bands a spectrum payload holds: `None` unless its length is exactly
/// two plus four per announced band.
pub open spec fn parse_spectrum(data: Seq<u8>) -> Option<Seq<u32>> {
    if data.len() < 2 {
        None
    } else {
        let count = from_le16(data[0], data[1]) as int;
        if data.len() != 2 + 4 * count {
            None
        } else {
            Some(Seq::new(count as nat, |i: int| band_at(data, i)))
        }
    }
}

pub(crate) proof fn lemma_bands_bytes_len(bands: Seq<u32>, n: nat)
    requires
        n <= bands.len(),
    ensures
        bands_bytes(bands, n).len() == 4 * n,
    decreases n,
{
    if n > 0 {
        lemma_bands_bytes_len(bands, (n - 1) as nat);
    }
}

proof fn lemma_bands_bytes_at(bands: Seq<u32>, n: nat, i: int)
    requires
        n <= bands.len(),
        0 <= i < n,
    ensures
        bands_bytes(bands, n).subrange(4 * i, 4 * i + 4) == le32(bands[i]),
    decreases n,
{
    lemma_bands_bytes_len(bands, (n - 1) as nat);
    if i < n - 1 {
        lemma_bands_bytes_at(bands, (n - 1) as nat, i);
        assert(bands_bytes(bands, n).subrange(4 * i, 4 * i + 4) =~= bands_bytes(bands, (n - 1) as nat).subrange(4 * i, 4 * i + 4));
    } else {
        assert(bands_bytes(bands, n).subrange(4 * i, 4 * i + 4) =~= le32(bands[i]));
    }
}

/// Reading back the payload of a spectrum gives its bands, when there are
/// fewer than 65536 of them.
pub proof fn lemma_spectrum_roundtrip(bands: Seq<u32>)
    requires
        bands.len() <= u16::MAX,
    ensures
        parse_spectrum(spectrum_payload(bands)) == Some(bands),
{
    let p = spectrum_payload(bands);
    lemma_le16_roundtrip(bands.len() as u16);
    lemma_bands_bytes_len(bands, bands.len());
    let parsed = Seq::new(bands.len(), |i: int| band_at(p, i));
    assert forall|i: int| 0 <= i < bands.len() implies parsed[i] == bands[i] by {
        lemma_bands_bytes_at(bands, bands.len(), i);
        let s = bands_bytes(bands, bands.len());
        assert(p[2 + 4 * i] == s[4 * i]);
        assert(s[4 * i] == s.subrange(4 * i, 4 * i + 4)[0]);
        assert(s[4 * i + 1] == s.subrange(4 * i, 4 * i + 4)[1]);
        assert(s[4 * i + 2] == s.subrange(4 * i, 4 * i + 4)[2]);
        assert(s[4 * i + 3] == s.subrange(4 * i, 4 * i + 4)[3]);
        lemma_le32_roundtrip(bands[i]);
    }
    assert(parsed =~= bands);
}

impl SpectrumData {
    /// The payload of this spectrum (see `spectrum_payload`).
    pub fn to_payload(&self) -> (payload: Vec<u8>)
        ensures
            payload@ == spectrum_payload(self.bands@),
    {
        let mut payload: Vec<u8> = Vec::with_capacity(2);
        let n = self.bands.len();
        push_le16(&mut payload, (n % 65536) as u16);
        let ghost head = payload@;
        let mut i: usize = 0;
        while i < n
            invariant
                n == self.bands@.len(),
                i <= n,
                payload@ == head + bands_bytes(self.bands@, i as nat),
            decreases n - i,
        {
            push_le32(&mut payload, self.bands[i]);
            i = i + 1;
            assert(payload@ =~= head + bands_bytes(self.bands@, i as nat));
        }
        payload
    }

    /// The bands a payload holds (see `parse_spectrum`).
    pub fn from_payload(data: &[u8]) -> (r: Option<Self>)
        ensures
            match (r, parse_spectrum(data@)) {
                (Some(s), Some(b)) => s.bands@ == b,
                (None, None) => true,
                _ => false,
            },
    {
        if data.len() < 2 {
            return None;
        }
        let band_count = u16_from_le(data[0], data[1]) as usize;
        let expected_size = 2 + band_count * 4;
        if data.len() != expected_size {
            return None;
        }
        let mut bands: Vec<u32> = Vec::with_capacity(band_count);
        let mut i: usize = 0;
        while i < band_count
            invariant
                i <= band_count,
                data@.len() == 2 + 4 * band_count,
                band_count == from_le16(data@[0], data@[1]),
                bands@ =~= Seq::new(i as nat, |k: int| band_at(data@, k)),
            decreases band_count - i,
        {
            let offset = 2 + i * 4;
            bands.push(u32_from_le(data[offset], data[offset + 1], data[offset + 2], data[offset + 3]));
            i = i + 1;
        }
        Some(SpectrumData { bands })
    }
}

} // verus!
