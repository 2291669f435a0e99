use led_visualizer::udp::{FrameData, FrameFormat, PacketType, UdpCommand, UdpPacket};

#[test]
fn test_packet_serialization() {
    let packet = UdpPacket::new(PacketType::FrameData, 42, vec![1, 2, 3, 4, 5]);

    let bytes = packet.to_bytes().unwrap();
    let decoded = UdpPacket::from_bytes(&bytes).unwrap();

    assert_eq!(packet.packet_type, decoded.packet_type);
    assert_eq!(packet.sequence, decoded.sequence);
    assert_eq!(packet.payload, decoded.payload);
}

#[test]
fn test_command_serialization() {
    let cmd = UdpCommand::SetEffect(5);
    let payload = cmd.to_payload();
    let decoded = UdpCommand::from_payload(&payload).unwrap();

    match decoded {
        UdpCommand::SetEffect(id) => assert_eq!(id, 5),
        _ => panic!("Wrong command type"),
    }
}

#[test]
fn test_frame_data_serialization() {
    let frame = FrameData {
        width: 64,
        height: 64,
        format: FrameFormat::RGB,
        data: vec![255; 64 * 64 * 3],
    };

    let payload = frame.to_payload();
    let decoded = FrameData::from_payload(&payload).unwrap();

    assert_eq!(frame.width, decoded.width);
    assert_eq!(frame.height, decoded.height);
    assert_eq!(frame.data.len(), decoded.data.len());
}
