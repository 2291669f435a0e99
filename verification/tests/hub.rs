use std::io::Read;

use flate2::read::GzDecoder;
use led_visualizer::ehub;
use led_visualizer::hubmsg::{build_hub_message, frame_hub_message};
use led_visualizer::ihub;
use led_visualizer::router::{ControllerConfig, IHubRouter};

fn gunzip(data: &[u8]) -> Vec<u8> {
    let mut out = Vec::new();
    GzDecoder::new(data).read_to_end(&mut out).unwrap();
    out
}

fn set_pixel(frame: &mut [u8], x: usize, y: usize, rgb: [u8; 3]) {
    let i = (y * 128 + x) * 3;
    frame[i..i + 3].copy_from_slice(&rgb);
}

#[test]
fn hub_message_frames_a_gzip_payload() {
    let m = build_hub_message(*b"eHuB", 2, 7, 3, &[1, 2, 3, 4, 5, 6]).unwrap();
    assert_eq!(&m[0..4], b"eHuB");
    assert_eq!((m[4], m[5]), (2, 7));
    assert_eq!((m[6], m[7]), (3, 0));
    let size = u16::from_le_bytes([m[8], m[9]]) as usize;
    assert_eq!(size, m.len() - 10);
    // The payload is gzip: it is not the input handed back, and it inflates to it.
    assert_eq!(&m[10..12], &[0x1f, 0x8b]);
    assert_eq!(gunzip(&m[10..]), vec![1, 2, 3, 4, 5, 6]);
}

#[test]
fn ehub_magic_bytes() {
    assert_eq!(&ehub::ehub_magic(), b"eHuB");
    assert_eq!(&ihub::ihub_magic(), b"iHuB");
}

#[test]
fn ehub_frame_mapping_layout() {
    let mut frame = vec![0u8; 128 * 128 * 3];
    set_pixel(&mut frame, 0, 127, [1, 2, 3]);
    set_pixel(&mut frame, 1, 0, [4, 5, 6]);
    set_pixel(&mut frame, 32, 0, [7, 8, 9]);
    let out = ehub::frame_to_entities(&frame, 128, 128);
    assert_eq!(out.len(), 64 * 259);
    assert_eq!(out[0], (100, 0, 0, 0, 0));
    assert_eq!(out[1], (101, 1, 2, 3, 0));
    assert_eq!(out[129], (229, 0, 0, 0, 0));
    assert_eq!(out[130], (230, 4, 5, 6, 0));
    assert_eq!(out[258], (358, 0, 0, 0, 0));
    assert_eq!(out[259].0, 400);
    // Strip 16 opens the second quarter.
    assert_eq!(out[16 * 259].0, 5100);
    assert_eq!(out[16 * 259 + 128], (5100 + 128, 7, 8, 9, 0));
    assert_eq!(out[16 * 259 + 128 - 127].0, 5101);
    let strip16_top = out[16 * 259 + 1];
    assert_eq!(strip16_top, (5101, 0, 0, 0, 0));
}

#[test]
fn ehub_narrow_frame_maps_fewer_strips() {
    let frame = vec![9u8; 3 * 128 * 3];
    let out = ehub::frame_to_entities(&frame, 3, 128);
    // Strip 0 has both columns, strip 1 only its rising half.
    assert_eq!(out.len(), 259 + 130);
    assert_eq!(out[259], (400, 0, 0, 0, 0));
    assert_eq!(out[260], (401, 9, 9, 9, 0));
}

#[test]
fn ihub_frame_mapping_matches_ehub_on_a_full_frame() {
    let mut frame = vec![0u8; 128 * 128 * 3];
    for (i, b) in frame.iter_mut().enumerate() {
        *b = (i % 251) as u8;
    }
    assert_eq!(ihub::frame_to_entities(&frame, 128, 128), ehub::frame_to_entities(&frame, 128, 128));
    let mut out = vec![(1, 1, 1, 1, 1)];
    ihub::frame_to_entities_optimized(&frame, 128, 128, &mut out);
    assert_eq!(out.len(), 64 * 259);
    // Only strips with both columns are mapped.
    assert_eq!(ihub::frame_to_entities(&frame, 3, 128).len(), 259);
}

#[test]
fn ehub_controller_keeps_the_last_level_of_each_entity() {
    let mut c = ehub::EHubController::new(4);
    let m = c.update_entities(vec![(5, 1, 1, 1, 0), (2, 9, 9, 9, 9), (5, 7, 0, 0, 0)]).unwrap();
    assert_eq!(&m[0..4], b"eHuB");
    assert_eq!((m[4], m[5], m[6], m[7]), (2, 4, 2, 0));
    assert_eq!(gunzip(&m[10..]), vec![2, 0, 9, 9, 9, 9, 5, 0, 7, 0, 0, 0]);

    let ranges = vec![ehub::EntityRange { sextet_start: 0, entity_start: 1, sextet_end: 169, entity_end: 170 }];
    let cfg = c.configure_entities(ranges).unwrap();
    assert_eq!((cfg[4], cfg[5], cfg[6]), (1, 4, 1));
    assert_eq!(gunzip(&cfg[10..]), vec![0, 0, 1, 0, 169, 0, 170, 0]);
    assert_eq!(c.config_message().unwrap(), cfg);
}

#[test]
fn ihub_controller_sends_differences_or_everything() {
    let mut c = ihub::IHubController::new(1);
    let batch: Vec<(u16, u8, u8, u8, u8)> = (0..8).map(|i| (i, 10, 10, 10, 0)).collect();
    let m = c.update_entities(&batch).unwrap();
    // Everything changed: a full update of the eight entities.
    assert_eq!((m[4], m[5], m[6]), (2, 1, 8));
    assert_eq!(gunzip(&m[10..]).len(), 8 * 6);
    assert_eq!(c.dirty_entities().len(), 8);

    // One change out of eight: a differential update.
    let m = c.update_entities(&[(3, 0, 0, 0, 0)]).unwrap();
    assert_eq!((m[4], m[6]), (3, 1));
    assert_eq!(gunzip(&m[10..]), vec![3, 0, 0, 0, 0, 0]);
    assert_eq!(c.dirty_entities(), &vec![3]);

    // Nothing changed: nothing to send.
    assert!(c.update_entities(&[(3, 0, 0, 0, 0)]).is_none());
    assert!(c.dirty_entities().is_empty());

    // Without differential updates a single change resends everything.
    c.set_differential_updates(false);
    let m = c.update_entities(&[(4, 1, 1, 1, 1)]).unwrap();
    assert_eq!((m[4], m[6]), (2, 8));
}

#[test]
fn ihub_batch_clears_its_dirty_flags() {
    let mut batch = ihub::EntityBatch::new(4);
    assert!(batch.update(ihub::Entity::new(1, 1, 2, 3)));
    assert!(batch.update(ihub::Entity::new_rgbw(2, 0, 0, 0, 4)));
    batch.clear_dirty_flags();
    assert!(batch.get_dirty_entities().is_empty());
    assert!(batch.update(ihub::Entity::new(2, 0, 0, 0)));
    let dirty = batch.get_dirty_entities();
    assert_eq!(dirty.len(), 1);
    assert_eq!(dirty[0].id, 2);
}

#[test]
fn ihub_lookup_total_and_cache_reset() {
    let mut config = ihub::UniverseConfig::new(3);
    assert!(!config.has_lookup_cache());
    config.add_range(200, 370, 170);
    config.add_range(1, 170, 0);
    assert_eq!(config.get_sextet_position(250), Some(220));
    assert!(config.has_lookup_cache());
    config.add_range(400, 409, 400);
    assert!(!config.has_lookup_cache());
    assert_eq!(config.get_sextet_position(405), Some(405));
    assert_eq!(config.get_sextet_position(0), None);
    assert_eq!(config.total_entities(), 171 + 170 + 10);
}

#[test]
fn router_routes_entities_to_universes() {
    let mut router = IHubRouter::new();
    assert!(router.entity_mapping(100).is_none());
    assert_eq!(router.get_stats().entity_count, 0);
    let controllers = vec![ControllerConfig { ip_address: "192.168.1.45".to_string(), start_universe: 0, universe_count: 32 }];
    router.configure_controllers(controllers);

    let m = router.entity_mapping(100).unwrap();
    assert_eq!((m.controller_ip.as_str(), m.universe, m.dmx_channel), ("192.168.1.45", 0, 0));
    let m = router.entity_mapping(100 + 170).unwrap();
    assert_eq!((m.universe, m.dmx_channel), (1, 0));
    let m = router.entity_mapping(15100 + 300 + 5).unwrap();
    assert_eq!((m.controller_ip.as_str(), m.universe, m.dmx_channel), ("192.168.1.48", 98, 15));
    assert!(router.entity_mapping(99).is_none());
    assert!(router.entity_mapping(100 + 259).is_none());

    let stats = router.get_stats();
    assert_eq!((stats.entity_count, stats.controller_count, stats.universe_count, stats.total_dmx_channels), (16576, 1, 128, 65536));

    router.route_entities(&[ihub::Entity::new(101, 1, 2, 3), ihub::Entity::new(5100, 4, 5, 6)]);
    let packets = router.artnet_packets();
    assert_eq!(packets.len(), 128);
    assert_eq!(&packets[0].1[18..24], &[0, 0, 0, 1, 2, 3]);
    assert_eq!(packets[32].0, "192.168.1.46");
    assert_eq!(&packets[32].1[14..16], &[32, 0]);
    assert_eq!(&packets[32].1[18..21], &[4, 5, 6]);

    // Routing again starts from dark universes.
    router.route_entities(&[]);
    assert!(router.artnet_packets()[0].1[18..].iter().all(|&b| b == 0));
}

#[test]
fn configuration_is_resent_every_second() {
    let mut c = ehub::EHubController::new(2);
    assert!(c.tick(999).is_none());
    let m = c.tick(1000).unwrap();
    assert_eq!(&m[0..4], b"eHuB");
    assert_eq!((m[4], m[5], m[6]), (1, 2, 0));
    assert!(c.tick(1999).is_none());
    assert!(c.tick(2000).is_some());

    let mut i = ihub::IHubController::new(3);
    let m = i.tick(5000).unwrap();
    assert_eq!(&m[0..4], b"iHuB");
    assert_eq!((m[4], m[5]), (1, 3));
    assert!(i.tick(5500).is_none());
    assert!(!led_visualizer::hubmsg::config_due(10, 5));
}

#[test]
fn hub_message_framing() {
    let m = frame_hub_message(*b"iHuB", 3, 9, 70000, &[0xaa, 0xbb]);
    // The count keeps its low 16 bits: 70000 = 0x11170.
    assert_eq!(m, vec![b'i', b'H', b'u', b'B', 3, 9, 0x70, 0x11, 2, 0, 0xaa, 0xbb]);
    assert_eq!(frame_hub_message(*b"eHuB", 1, 0, 0, &[]), vec![b'e', b'H', b'u', b'B', 1, 0, 0, 0, 0, 0]);
}

#[test]
fn cleared_batch_stays_clean_on_equal_updates() {
    let mut batch = ihub::EntityBatch::new(0);
    let e = ihub::Entity::new(7, 1, 2, 3);
    assert!(batch.update(e));
    batch.clear_dirty_flags();
    assert!(!batch.update(e));
    assert!(batch.get_dirty_entities().is_empty());
}
