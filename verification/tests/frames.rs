use std::io::Read;

use flate2::read::GzDecoder;
use led_visualizer::frames::{fast_hash, fast_hash_bits, UdpFrameProcessor};
use led_visualizer::preview::FrameProcessor;
use led_visualizer::udp::{FrameData, PacketFlags, PacketType, SpectrumData};

#[test]
fn fast_hash_values() {
    assert_eq!(fast_hash(&[]), 0);
    assert_eq!(fast_hash(&[1, 2, 3, 4, 5]), 21542142465);
    let nine: Vec<u8> = (1..10).collect();
    assert_eq!(fast_hash(&nine), 578437695752307219);
    // The sum wraps around.
    assert_eq!(fast_hash(&[255; 16]), 18446744073709551613);
    assert_eq!(UdpFrameProcessor::fast_hash(&[1, 2, 3, 4, 5]), fast_hash(&[1, 2, 3, 4, 5]));
    assert_eq!(fast_hash_bits(&[1, 2]), 5);
    assert_eq!(fast_hash_bits(&[]), 0);
}

#[test]
fn downscale_picks_every_other_pixel() {
    let mut src = vec![0u8; 4 * 2 * 3];
    for (i, b) in src.iter_mut().enumerate() {
        *b = i as u8;
    }
    let mut p = UdpFrameProcessor::new();
    p.downscale_frame(&src, 4, 2, 1);
    assert_eq!(p.frame_buffer(), &vec![0, 1, 2, 6, 7, 8]);
    // Pixels past the end of the source are black.
    p.downscale_frame(&src[..9], 4, 2, 2);
    assert_eq!(p.frame_buffer(), &vec![0, 1, 2, 6, 7, 8, 0, 0, 0, 0, 0, 0]);
}

#[test]
fn first_round_sends_a_fragmented_frame_and_the_spectrum() {
    let mut p = UdpFrameProcessor::new();
    let frame = vec![255u8; 128 * 128 * 3];
    let packets = p.prepare_packets(&frame, &[1, 2], &[5], 10, false);
    // 5 + 64 * 64 * 3 = 12293 bytes: nine fragments, then the spectrum.
    assert_eq!(packets.len(), 10);
    let mut joined = Vec::new();
    for (i, pk) in packets[..9].iter().enumerate() {
        assert_eq!(pk.packet_type, PacketType::FrameData);
        assert_eq!(pk.sequence, 10 + i as u32);
        assert_eq!(pk.fragment_id, i as u16);
        assert_eq!(pk.fragment_count, 9);
        assert!(pk.flags.contains(PacketFlags::fragmented()));
        assert_eq!(pk.flags.contains(PacketFlags::last_fragment()), i == 8);
        joined.extend_from_slice(&pk.payload);
    }
    assert_eq!(packets[0].payload.len(), 1460);
    assert_eq!(packets[8].payload.len(), 12293 - 8 * 1460);
    let frame_back = FrameData::from_payload(&joined).unwrap();
    assert_eq!((frame_back.width, frame_back.height), (64, 64));
    assert!(frame_back.data.iter().all(|&b| b == 255));

    let spectrum = &packets[9];
    assert_eq!(spectrum.packet_type, PacketType::SpectrumData);
    assert_eq!(spectrum.sequence, 19);
    assert_eq!(SpectrumData::from_payload(&spectrum.payload).unwrap().bands, vec![5]);

    // Nothing changed: nothing to send.
    assert!(p.prepare_packets(&frame, &[1, 2], &[5], 20, false).is_empty());
    // The spectrum changed: only the spectrum.
    let again = p.prepare_packets(&frame, &[1, 3], &[6], 20, false);
    assert_eq!(again.len(), 1);
    assert_eq!(again[0].sequence, 20);
}

#[test]
fn compressed_frames_travel_in_one_packet() {
    let mut p = UdpFrameProcessor::new();
    let frame = vec![7u8; 128 * 128 * 3];
    let packets = p.prepare_packets(&frame, &[], &[], 0, true);
    assert_eq!(packets.len(), 1);
    assert_eq!(packets[0].packet_type, PacketType::FrameDataCompressed);
    assert_eq!(packets[0].fragment_count, 1);
    let mut inflated = Vec::new();
    GzDecoder::new(&packets[0].payload[..]).read_to_end(&mut inflated).unwrap();
    let f = FrameData::from_payload(&inflated).unwrap();
    assert_eq!(f.data, vec![7u8; 64 * 64 * 3]);
}

#[test]
fn frames_are_resent_every_sixtieth_round() {
    let mut p = UdpFrameProcessor::new();
    let frame = vec![1u8; 128 * 128 * 3];
    assert!(!p.prepare_packets(&frame, &[], &[], 0, false).is_empty());
    for _ in 1..60 {
        assert!(p.prepare_packets(&frame, &[], &[], 0, false).is_empty());
    }
    assert!(!p.prepare_packets(&frame, &[], &[], 0, false).is_empty());
}

#[test]
fn preview_decisions() {
    let mut p = FrameProcessor::new();
    assert!(p.note_frame(42, 1));
    assert!(!p.note_frame(42, 2));
    assert!(p.note_frame(42, 30));
    assert!(p.note_frame(43, 31));
    assert!(p.note_spectrum(9));
    assert!(!p.note_spectrum(9));
    assert!(p.note_spectrum(0));
}

#[test]
fn preview_compression_pays_or_is_skipped() {
    let mut p = FrameProcessor::new();
    assert!(p.compress_frame(&[0u8; 1023]).is_none());
    let c = p.compress_frame(&[0u8; 4096]).unwrap();
    let mut inflated = Vec::new();
    GzDecoder::new(&c[..]).read_to_end(&mut inflated).unwrap();
    assert_eq!(inflated, vec![0u8; 4096]);
    // Noise does not shrink by a quarter.
    let mut x: u32 = 1;
    let noise: Vec<u8> = (0..4096)
        .map(|_| {
            x ^= x << 13;
            x ^= x >> 17;
            x ^= x << 5;
            x as u8
        })
        .collect();
    assert!(p.compress_frame(&noise).is_none());
}
