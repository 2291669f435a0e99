use led_visualizer::client::{
    connect_packet, create_packet, is_ack, parse_frame_data, parse_spectrum_data, ping_packet, set_color_mode_packet,
    set_custom_color_packet, set_effect_packet, FrameDataError, PacketHeader, SpectrumDataError, StreamCounters,
    StreamEvent,
};
use led_visualizer::udp::{FrameData, FrameFormat, PacketType, SpectrumData, UdpPacket};

#[test]
fn create_packet_lays_out_the_header() {
    let p = create_packet(0x10, 0, 0x0102_0304, vec![7, 8, 9]);
    assert_eq!(p, vec![0x10, 0, 4, 3, 2, 1, 0, 0, 1, 0, 3, 0, 7, 8, 9]);
}

#[test]
fn header_reads_back() {
    let p = create_packet(0x30, 2, 77, vec![1, 2, 3, 4]);
    let h = PacketHeader::parse(&p).unwrap();
    assert_eq!(h.packet_type, 0x30);
    assert_eq!(h.flags, 2);
    assert_eq!(h.sequence, 77);
    assert_eq!(h.fragment_id, 0);
    assert_eq!(h.fragment_count, 1);
    assert_eq!(h.payload_size, 4);
    assert!(h.validate(p.len()).is_ok());
    assert_eq!(h.validate(15).unwrap_err(), "Packet length mismatch: expected 16, got 15");
    assert_eq!(PacketHeader::parse(&p[..11]).unwrap_err(), "Packet too short for header");
}

#[test]
fn command_packets_carry_their_payloads() {
    let p = set_effect_packet(3);
    assert_eq!(p[0], 0x10);
    assert_eq!(&p[10..], &[5, 0, 1, 3, 0, 0, 0]);

    let p = set_color_mode_packet("fire");
    assert_eq!(&p[10..], &[5, 0, 2, b'f', b'i', b'r', b'e']);

    let p = set_custom_color_packet(1.0f32.to_bits(), 0, 0.5f32.to_bits());
    assert_eq!(p[12], 3);
    assert_eq!(&p[13..17], &1.0f32.to_le_bytes());
    assert_eq!(&p[21..25], &0.5f32.to_le_bytes());

    let c = connect_packet(true);
    assert_eq!((c[0], c[1], c.len()), (0x01, 1, 12));
    let c = ping_packet();
    assert_eq!((c[0], c[1], c.len()), (0x03, 0, 12));
}

#[test]
fn frame_payloads_are_checked() {
    let mut payload = vec![2, 0, 1, 0, 1];
    payload.extend_from_slice(&[10, 20, 30, 40, 50, 60, 99]);
    let f = parse_frame_data(&payload).unwrap();
    assert_eq!((f.width, f.height, f.format), (2, 1, 1));
    assert_eq!(f.data, vec![10, 20, 30, 40, 50, 60]);

    assert_eq!(parse_frame_data(&[1, 0, 1]).unwrap_err(), FrameDataError::TooShort);
    assert_eq!(parse_frame_data(&[0, 0, 1, 0, 1]).unwrap_err(), FrameDataError::InvalidDimensions(0, 1));
    assert_eq!(parse_frame_data(&[1, 4, 1, 0, 1]).unwrap_err(), FrameDataError::InvalidDimensions(1025, 1));
    assert_eq!(parse_frame_data(&[1, 0, 1, 0, 3]).unwrap_err(), FrameDataError::UnsupportedFormat(3));
    assert_eq!(
        parse_frame_data(&[1, 0, 1, 0, 2, 0, 0]).unwrap_err(),
        FrameDataError::Insufficient { expected: 9, got: 7 }
    );
}

#[test]
fn spectrum_payloads_are_checked() {
    let mut payload = vec![2, 0];
    payload.extend_from_slice(&0.25f32.to_le_bytes());
    payload.extend_from_slice(&7u32.to_le_bytes());
    assert_eq!(parse_spectrum_data(&payload).unwrap(), vec![0.25f32.to_bits(), 7]);

    assert_eq!(parse_spectrum_data(&[1]).unwrap_err(), SpectrumDataError::TooShort);
    assert_eq!(parse_spectrum_data(&[0, 0]).unwrap_err(), SpectrumDataError::InvalidBandCount(0));
    assert_eq!(parse_spectrum_data(&[1, 4]).unwrap_err(), SpectrumDataError::InvalidBandCount(1025));
    assert_eq!(
        parse_spectrum_data(&[2, 0, 1, 2, 3]).unwrap_err(),
        SpectrumDataError::Insufficient { expected: 10, got: 5 }
    );
}

#[test]
fn stream_counters_follow_the_packets() {
    let mut c = StreamCounters::new();

    let frame = create_packet(0x20, 0, 5, vec![1, 0, 1, 0, 1, 9, 8, 7]);
    match c.on_packet(&frame) {
        StreamEvent::Frame(f) => assert_eq!(f.data, vec![9, 8, 7]),
        other => panic!("unexpected {:?}", other),
    }
    assert_eq!(c.packets_received, 1);
    assert_eq!(c.frames_received, 1);
    assert_eq!(c.bytes_received, 20);
    assert_eq!(c.last_sequence, 5);
    assert_eq!(c.packets_lost, 0);

    // Sequence 9 after 5: three packets missing.
    let spectrum = create_packet(0x30, 0, 9, vec![1, 0, 0, 0, 128, 63]);
    match c.on_packet(&spectrum) {
        StreamEvent::Spectrum(b) => assert_eq!(b, vec![1.0f32.to_bits()]),
        other => panic!("unexpected {:?}", other),
    }
    assert_eq!(c.packets_lost, 3);
    assert_eq!(c.spectrum_received, 1);

    // A bad frame payload counts as lost.
    let bad = create_packet(0x20, 0, 10, vec![0, 0]);
    assert!(matches!(c.on_packet(&bad), StreamEvent::BadFrame(FrameDataError::TooShort)));
    assert_eq!(c.packets_lost, 4);

    // A datagram shorter than a header counts as lost.
    assert!(matches!(c.on_packet(&[1, 2, 3]), StreamEvent::BadHeader));
    assert_eq!(c.packets_lost, 5);
    assert_eq!(c.packets_received, 4);

    // A truncated datagram is dropped and leaves the counters alone.
    let before = c;
    let mut truncated = create_packet(0x20, 0, 11, vec![1, 2, 3]);
    truncated.pop();
    assert!(matches!(c.on_packet(&truncated), StreamEvent::Dropped));
    assert_eq!(c, before);

    let other = create_packet(0x04, 0, 12, vec![]);
    assert!(matches!(c.on_packet(&other), StreamEvent::Other(0x04)));
    assert_eq!(c.last_sequence, 12);
}

#[test]
fn receive_errors_stop_the_stream_after_a_hundred() {
    let mut c = StreamCounters::new();
    for _ in 0..100 {
        assert!(!c.on_receive_error());
    }
    assert!(c.on_receive_error());
    assert_eq!(c.packets_lost, 101);
}

#[test]
fn client_reads_what_the_server_sends() {
    let mut c = StreamCounters::new();
    let s = SpectrumData { bands: vec![1.0f32.to_bits(), 7] };
    let bytes = UdpPacket::new(PacketType::SpectrumData, 3, s.to_payload()).to_bytes().unwrap();
    match c.on_packet(&bytes) {
        StreamEvent::Spectrum(b) => assert_eq!(b, s.bands),
        other => panic!("unexpected {:?}", other),
    }

    let f = FrameData { width: 2, height: 2, format: FrameFormat::RGBA, data: (0..16).collect() };
    let bytes = UdpPacket::new(PacketType::FrameData, 4, f.to_payload()).to_bytes().unwrap();
    match c.on_packet(&bytes) {
        StreamEvent::Frame(frame) => {
            assert_eq!((frame.width, frame.height, frame.format), (2, 2, 2));
            assert_eq!(frame.data, f.data);
        }
        other => panic!("unexpected {:?}", other),
    }
    assert_eq!((c.frames_received, c.spectrum_received, c.packets_lost), (1, 1, 0));
}

#[test]
fn acknowledgements_are_recognised() {
    assert!(is_ack(&[0x05]));
    assert!(is_ack(&create_packet(0x05, 0, 9, vec![])));
    assert!(!is_ack(&[]));
    assert!(!is_ack(&[0x04, 0x05]));
}
