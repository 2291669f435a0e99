use led_visualizer::artnet::{
    create_artnet_header, create_artnet_packet, map_pixels_to_band, production_frame_universes,
    simulator_frame_universes, simulator_universe_data, target_with_port, universe_packet, ArtNetStats,
};
use led_visualizer::led::{
    controller_addresses, create_test_pattern, frame_delay_ms, get_controllers, pattern_kind_of, validate_frame_size,
    LedMode, PatternKind, TestPattern, MATRIX_SIZE,
};

fn set_pixel(frame: &mut [u8], x: usize, y: usize, rgb: [u8; 3]) {
    let i = (y * 128 + x) * 3;
    frame[i..i + 3].copy_from_slice(&rgb);
}

#[test]
fn plain_patterns_fill_the_frame() {
    assert_eq!(create_test_pattern("red", 2, 2), [255, 0, 0].repeat(4));
    assert_eq!(create_test_pattern("white", 1, 3), [255, 255, 255].repeat(3));
    assert_eq!(create_test_pattern("off", 2, 1), vec![0; 6]);
    assert_eq!(create_test_pattern("black", 2, 1), vec![0; 6]);
    assert!(create_test_pattern("green", 0, 5).is_empty());
}

#[test]
fn gradient_runs_red_to_blue() {
    let g = create_test_pattern("gradient", 4, 1);
    assert_eq!(g, vec![0, 0, 255, 63, 31, 192, 127, 63, 128, 191, 95, 64]);
    // An unknown name gives the gradient.
    assert_eq!(create_test_pattern("sparkles", 4, 1), g);
    assert_eq!(pattern_kind_of("sparkles"), PatternKind::Gradient);
}

#[test]
fn unknown_pattern_falls_back_to_gradient() {
    assert_eq!(create_test_pattern("rainbow", 2, 1), vec![0, 0, 255, 127, 63, 128]);
    assert_eq!(create_test_pattern("rainbow", 3, 2), create_test_pattern("gradient", 3, 2));
    assert!(create_test_pattern("rainbow", 0, 0).is_empty());
}

#[test]
fn checkerboard_and_quarters() {
    let c = create_test_pattern("checkerboard", 16, 9);
    assert_eq!(&c[0..3], &[255, 255, 255]);
    assert_eq!(&c[8 * 3..8 * 3 + 3], &[0, 0, 0]);
    let row8 = 8 * 16 * 3;
    assert_eq!(&c[row8..row8 + 3], &[0, 0, 0]);
    assert_eq!(&c[row8 + 24..row8 + 27], &[255, 255, 255]);

    let q = create_test_pattern("quarter", 128, 1);
    assert_eq!(&q[0..3], &[255, 0, 0]);
    assert_eq!(&q[32 * 3..32 * 3 + 3], &[0, 255, 0]);
    assert_eq!(&q[64 * 3..64 * 3 + 3], &[0, 0, 255]);
    assert_eq!(&q[127 * 3..127 * 3 + 3], &[255, 255, 255]);
}

#[test]
fn test_pattern_names() {
    let all = TestPattern::all();
    assert_eq!(all.len(), 7);
    assert_eq!(all[0].name(), "Rouge Production");
    assert_eq!(all[4].description(), "Dégradé horizontal sur écran physique");
    assert_eq!(TestPattern::QuarterTest.pattern_key(), "gradient");
    assert_eq!(TestPattern::Checkerboard.pattern_key(), "checkerboard");
    assert_eq!(LedMode::default(), LedMode::Production);
}

#[test]
fn frame_size_is_checked() {
    assert!(validate_frame_size(&vec![0u8; MATRIX_SIZE]).is_ok());
    assert_eq!(
        validate_frame_size(&[0u8; 3]).unwrap_err(),
        "PRODUCTION: Taille frame invalide: 3 (attendu 49152)"
    );
}

#[test]
fn frame_delay_from_fps() {
    assert_eq!(frame_delay_ms(60), 16);
    assert_eq!(frame_delay_ms(50), 20);
    assert_eq!(frame_delay_ms(7), 142);
}

#[test]
fn artnet_header_and_packet() {
    let h = create_artnet_header(0x0102);
    assert_eq!(h, vec![b'A', b'r', b't', b'-', b'N', b'e', b't', 0, 0, 0x50, 0, 14, 0, 0, 2, 1, 2, 0]);
    let h = create_artnet_header(70000);
    assert_eq!((h[14], h[15]), (112, 17));

    let p = create_artnet_packet(5, &[1, 2, 3]);
    assert_eq!(p.len(), 530);
    assert_eq!((p[14], p[15]), (5, 0));
    assert_eq!(&p[18..21], &[1, 2, 3]);
    assert!(p[21..].iter().all(|&b| b == 0));

    let long = vec![9u8; 600];
    let p = create_artnet_packet(1, &long);
    assert_eq!(p.len(), 530);
}

#[test]
fn universe_packet_refuses_long_data() {
    assert_eq!(universe_packet(3, &[7; 512]).unwrap(), create_artnet_packet(3, &[7; 512]));
    assert_eq!(
        universe_packet(0, &[0; 513]).unwrap_err(),
        "Données DMX trop larges: 513 bytes (max 512)"
    );
}

#[test]
fn targets_get_the_artnet_port() {
    assert_eq!(target_with_port("192.168.1.45"), "192.168.1.45:6454");
    assert_eq!(target_with_port("127.0.0.1:7000"), "127.0.0.1:7000");
    assert_eq!(target_with_port(""), ":6454");
}

#[test]
fn artnet_stats_count_and_reset() {
    let mut s = ArtNetStats::new();
    s.record_sent(530);
    s.record_sent(530);
    assert_eq!(s.get_stats(), (2, 1060));
    assert_eq!(s.reset_stats(), (2, 1060));
    assert_eq!(s.get_stats(), (0, 0));
}

#[test]
fn strip_mapping_reads_the_right_pixels() {
    let mut frame = vec![0u8; MATRIX_SIZE];
    set_pixel(&mut frame, 0, 127, [9, 8, 7]);
    set_pixel(&mut frame, 1, 0, [1, 2, 3]);
    set_pixel(&mut frame, 1, 39, [4, 5, 6]);

    let mut dmx = vec![0xaau8; 512];
    map_pixels_to_band(&mut dmx, &frame, 0, 1, 0);
    assert_eq!(&dmx[0..3], &[9, 8, 7]);
    assert_eq!(&dmx[390..393], &[1, 2, 3]);
    assert_eq!(&dmx[510..512], &[0xaa, 0xaa]);

    let mut dmx = vec![0u8; 512];
    map_pixels_to_band(&mut dmx, &frame, 0, 1, 1);
    assert_eq!(&dmx[0..3], &[4, 5, 6]);
    assert!(dmx[267..].iter().all(|&b| b == 0));

    // A column off the matrix leaves the channels alone.
    let mut dmx = vec![5u8; 512];
    map_pixels_to_band(&mut dmx, &frame, 128, 1, 0);
    assert_eq!(dmx, vec![5u8; 512]);
}

#[test]
fn production_universes_cover_the_wall() {
    let mut frame = vec![0u8; MATRIX_SIZE];
    set_pixel(&mut frame, 0, 127, [9, 8, 7]);
    let out = production_frame_universes(&frame);
    assert_eq!(out.len(), 128);
    for (k, (controller, universe, dmx)) in out.iter().enumerate() {
        assert_eq!(*controller, k / 32);
        assert_eq!(*universe as usize, k);
        assert_eq!(dmx.len(), 512);
    }
    assert_eq!(&out[0].2[0..3], &[9, 8, 7]);
}

#[test]
fn simulator_universes_follow_the_columns() {
    let mut frame = vec![0u8; MATRIX_SIZE];
    set_pixel(&mut frame, 0, 127, [1, 2, 3]);
    set_pixel(&mut frame, 1, 0, [4, 5, 6]);
    set_pixel(&mut frame, 1, 64, [7, 8, 9]);
    assert_eq!(&simulator_universe_data(&frame, 0, 0)[0..3], &[1, 2, 3]);
    assert_eq!(&simulator_universe_data(&frame, 1, 0)[0..3], &[4, 5, 6]);
    assert_eq!(&simulator_universe_data(&frame, 1, 1)[0..3], &[7, 8, 9]);
    assert!(simulator_universe_data(&frame, 0, 0)[192..].iter().all(|&b| b == 0));

    let all = simulator_frame_universes(&frame);
    assert_eq!(all.len(), 256);
    assert_eq!(all[3].0, 3);
    assert_eq!(all[3].1, simulator_universe_data(&frame, 1, 1));

    // A short frame gives black.
    assert_eq!(simulator_universe_data(&[1, 2], 0, 0), vec![0u8; 512]);
}

#[test]
fn controller_lists() {
    assert_eq!(
        controller_addresses(LedMode::Production),
        vec!["192.168.1.45:6454", "192.168.1.46:6454", "192.168.1.47:6454", "192.168.1.48:6454"]
    );
    assert_eq!(controller_addresses(LedMode::Simulator), vec!["127.0.0.1:6454"; 4]);

    let c = get_controllers(LedMode::Production);
    assert_eq!(c.len(), 4);
    assert_eq!(c[1].id, "production_controller_1");
    assert_eq!(c[1].ip_address, "192.168.1.46");
    assert!(c[1].enabled);
    let s = get_controllers(LedMode::Simulator);
    assert_eq!(s[3].id, "simulator_controller_3");
    assert_eq!(s[3].ip_address, "127.0.0.1");
}
