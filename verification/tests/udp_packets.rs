use led_visualizer::udp::{
    FrameData, FrameFormat, PacketError, PacketFlags, PacketType, SpectrumData, UdpCommand, UdpPacket,
};

#[test]
fn packet_bytes_layout() {
    let mut p = UdpPacket::new(PacketType::Command, 0x01020304, vec![9, 8]);
    p.flags = PacketFlags::compressed().union(PacketFlags::requires_ack());
    p.fragment_id = 2;
    p.fragment_count = 3;
    let b = p.to_bytes().unwrap();
    assert_eq!(b, vec![0x10, 9, 4, 3, 2, 1, 2, 0, 3, 0, 2, 0, 9, 8]);
    let back = UdpPacket::from_bytes(&b).unwrap();
    assert_eq!(back.flags.bits(), 9);
    assert_eq!((back.fragment_id, back.fragment_count), (2, 3));
    assert_eq!(back.payload, vec![9, 8]);
}

#[test]
fn packet_errors() {
    assert_eq!(UdpPacket::from_bytes(&[1; 11]).unwrap_err(), PacketError::TooSmall);
    let mut b = UdpPacket::new_ack(1).to_bytes().unwrap();
    b[0] = 0x99;
    assert_eq!(UdpPacket::from_bytes(&b).unwrap_err(), PacketError::InvalidType);
    let b = UdpPacket::new(PacketType::Ping, 1, vec![1, 2, 3]).to_bytes().unwrap();
    assert_eq!(UdpPacket::from_bytes(&b[..14]).unwrap_err(), PacketError::Truncated);
    // Unknown flag bits are dropped, trailing bytes ignored.
    let mut b = UdpPacket::new(PacketType::Pong, 5, vec![]).to_bytes().unwrap();
    b[1] = 0xf3;
    b.push(77);
    let p = UdpPacket::from_bytes(&b).unwrap();
    assert_eq!(p.flags.bits(), 3);
    assert!(p.payload.is_empty());
}

#[test]
fn flags_behave_as_a_set() {
    let f = PacketFlags::from_bits_truncate(0xff);
    assert_eq!(f.bits(), 15);
    assert!(f.contains(PacketFlags::last_fragment()));
    assert!(!PacketFlags::none().contains(PacketFlags::compressed()));
    assert!(PacketFlags::none().contains(PacketFlags::none()));
    assert_eq!(PacketFlags::fragmented().union(PacketFlags::last_fragment()).bits(), 6);
    assert_eq!(PacketType::SpectrumData.code(), 0x30);
    let c = UdpPacket::new_connect(true);
    assert_eq!((c.packet_type, c.flags.bits(), c.sequence), (PacketType::Connect, 1, 0));
    assert_eq!(UdpPacket::new_connect(false).flags.bits(), 0);
    assert_eq!(UdpPacket::new_pong(4).packet_type, PacketType::Pong);
}

#[test]
fn every_command_round_trips() {
    let cmds = vec![
        UdpCommand::SetEffect(7),
        UdpCommand::SetColorMode("océan".to_string()),
        UdpCommand::SetCustomColor(1.0f32.to_bits(), 0, 0.25f32.to_bits()),
        UdpCommand::SetParameter("speed".to_string(), "1.5".to_string()),
    ];
    for c in cmds {
        let back = UdpCommand::from_payload(&c.to_payload()).unwrap();
        assert_eq!(format!("{:?}", back), format!("{:?}", c));
    }
    assert_eq!(UdpCommand::SetEffect(258).to_payload(), vec![1, 2, 1, 0, 0]);
    assert_eq!(UdpCommand::SetColorMode("fire".to_string()).to_payload(), vec![2, b'f', b'i', b'r', b'e']);
    assert_eq!(
        UdpCommand::SetParameter("a".to_string(), "bc".to_string()).to_payload(),
        vec![4, 1, 0, b'a', 2, 0, b'b', b'c']
    );
}

#[test]
fn malformed_commands_are_refused() {
    assert!(UdpCommand::from_payload(&[]).is_none());
    assert!(UdpCommand::from_payload(&[1, 0, 0]).is_none());
    assert!(UdpCommand::from_payload(&[2, 0xff]).is_none());
    assert!(UdpCommand::from_payload(&[3; 12]).is_none());
    assert!(UdpCommand::from_payload(&[4, 5, 0, b'a']).is_none());
    assert!(UdpCommand::from_payload(&[9]).is_none());
    // An empty colour mode is a valid text.
    assert!(matches!(UdpCommand::from_payload(&[2]), Some(UdpCommand::SetColorMode(m)) if m.is_empty()));
}

#[test]
fn frame_and_spectrum_payloads() {
    let f = FrameData { width: 2, height: 1, format: FrameFormat::BGRA, data: vec![1, 2, 3, 4, 5, 6, 7, 8] };
    let p = f.to_payload();
    assert_eq!(&p[..5], &[2, 0, 1, 0, 4]);
    let back = FrameData::from_payload(&p).unwrap();
    assert_eq!(back.format, FrameFormat::BGRA);
    assert_eq!(back.data, f.data);
    assert!(FrameData::from_payload(&[2, 0, 1, 0, 9]).is_none());
    assert!(FrameData::from_payload(&[2, 0, 1]).is_none());

    let s = SpectrumData { bands: vec![1, 0xdeadbeef] };
    let p = s.to_payload();
    assert_eq!(p, vec![2, 0, 1, 0, 0, 0, 0xef, 0xbe, 0xad, 0xde]);
    assert_eq!(SpectrumData::from_payload(&p).unwrap().bands, s.bands);
    assert!(SpectrumData::from_payload(&p[..9]).is_none());
}

#[test]
fn packet_type_codes_decode() {
    let all = [
        PacketType::Connect,
        PacketType::Disconnect,
        PacketType::Ping,
        PacketType::Pong,
        PacketType::Ack,
        PacketType::Command,
        PacketType::FrameData,
        PacketType::FrameDataCompressed,
        PacketType::SpectrumData,
    ];
    for t in all {
        assert_eq!(PacketType::from_u8(t.code()), Some(t));
    }
    assert_eq!(PacketType::from_u8(0x00), None);
    assert_eq!(PacketType::from_u8(0x06), None);
    assert_eq!(PacketType::from_u8(0x31), None);
}
