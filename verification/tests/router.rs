use led_visualizer::router::{ControllerConfig, IHubRouter};

#[test]
fn test_router_initialization() {
    let mut router = IHubRouter::new();

    let controllers = vec![ControllerConfig {
        ip_address: "192.168.1.45".to_string(),
        start_universe: 0,
        universe_count: 32,
    }];

    router.configure_controllers(controllers);
    let stats = router.get_stats();

    assert!(stats.entity_count > 0);
    assert_eq!(stats.controller_count, 1);
}
