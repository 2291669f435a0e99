use led_visualizer::ehub;
use led_visualizer::ihub;

#[test]
fn test_entity_sextet_conversion() {
    let entity = ehub::Entity::new(1234, 255, 128, 64);
    let sextet = entity.to_sextet();

    assert_eq!(sextet[0], 210);
    assert_eq!(sextet[1], 4);
    assert_eq!(sextet[2], 255);
    assert_eq!(sextet[3], 128);
    assert_eq!(sextet[4], 64);
    assert_eq!(sextet[5], 0);

    let restored = ehub::Entity::from_sextet(&sextet).unwrap();
    assert_eq!(restored.id, 1234);
    assert_eq!(restored.r, 255);
    assert_eq!(restored.g, 128);
    assert_eq!(restored.b, 64);
    assert_eq!(restored.w, 0);
}

#[test]
fn test_universe_config() {
    let mut config = ehub::UniverseConfig::new(0);
    config.add_range(1, 170, 0);
    config.add_range(200, 370, 170);

    assert_eq!(config.get_sextet_position(1), Some(0));
    assert_eq!(config.get_sextet_position(170), Some(169));
    assert_eq!(config.get_sextet_position(200), Some(170));
    assert_eq!(config.get_sextet_position(370), Some(340));
    assert_eq!(config.get_sextet_position(171), None);
}

#[test]
fn protocol_test_entity_sextet_conversion() {
    let entity = ihub::Entity::new(1234, 255, 128, 64);
    let sextet = entity.to_sextet();

    assert_eq!(sextet[0], 210);
    assert_eq!(sextet[1], 4);
    assert_eq!(sextet[2], 255);
    assert_eq!(sextet[3], 128);
    assert_eq!(sextet[4], 64);
    assert_eq!(sextet[5], 0);

    let restored = ihub::Entity::from_sextet(&sextet).unwrap();
    assert_eq!(restored.id, 1234);
    assert_eq!(restored.r, 255);
    assert_eq!(restored.g, 128);
    assert_eq!(restored.b, 64);
    assert_eq!(restored.w, 0);
}

#[test]
fn test_universe_config_with_cache() {
    let mut config = ihub::UniverseConfig::new(0);
    config.add_range(1, 170, 0);
    config.add_range(200, 370, 170);

    assert_eq!(config.get_sextet_position(1), Some(0));
    assert_eq!(config.get_sextet_position(170), Some(169));
    assert_eq!(config.get_sextet_position(200), Some(170));
    assert_eq!(config.get_sextet_position(370), Some(340));
    assert_eq!(config.get_sextet_position(171), None);

    assert!(config.has_lookup_cache());
}

#[test]
fn test_entity_batch() {
    let mut batch = ihub::EntityBatch::new(10);

    let e1 = ihub::Entity::new(1, 255, 0, 0);
    let e2 = ihub::Entity::new(2, 0, 255, 0);

    assert!(batch.update(e1));
    assert!(batch.update(e2));

    let dirty = batch.get_dirty_entities();
    assert_eq!(dirty.len(), 2);

    assert!(!batch.update(e1));

    let e1_modified = ihub::Entity::new(1, 128, 0, 0);
    assert!(batch.update(e1_modified));
}

#[test]
fn test_entity_brightness() {
    let entity = ihub::Entity::new_rgbw(1, 100, 150, 200, 50);
    assert_eq!(entity.brightness(), 500);
    assert!(entity.is_lit());

    let dark = ihub::Entity::new(2, 0, 0, 0);
    assert_eq!(dark.brightness(), 0);
    assert!(!dark.is_lit());
}

#[test]
fn test_differential_updates() {
    let mut controller = ihub::IHubController::new(0);

    let entities = vec![(1, 255, 0, 0, 0), (2, 0, 255, 0, 0), (3, 0, 0, 255, 0)];
    controller.update_entities(&entities);

    let updates = vec![(2, 0, 128, 0, 0)];
    controller.update_entities(&updates);

    assert_eq!(controller.dirty_entities().len(), 1);
    assert_eq!(controller.dirty_entities()[0], 2);
}

#[test]
fn test_frame_conversion_performance() {
    let frame = vec![0u8; 128 * 128 * 3];
    let mut output = Vec::new();

    let start = std::time::Instant::now();
    for _ in 0..100 {
        ihub::frame_to_entities_optimized(&frame, 128, 128, &mut output);
    }
    let duration = start.elapsed();

    assert!(duration.as_millis() < 100);
}
