use led_visualizer::server::{cleanup_due, ClientAddr, ClientInfo, ClientRegistry, ServerAction, TransmissionStats};
use led_visualizer::udp::{PacketType, UdpCommand, UdpPacket};

fn addr(port: u16) -> ClientAddr {
    ClientAddr { ip: 0xffff_7f00_0001, port }
}

#[test]
fn connect_registers_once_and_acknowledges() {
    let mut reg = ClientRegistry::new();
    let mut connect = UdpPacket::new_connect(true);
    connect.sequence = 7;
    match reg.handle_packet(&connect, addr(1234), 1000) {
        ServerAction::Reply(p) => {
            assert_eq!(p.packet_type, PacketType::Ack);
            assert_eq!(p.sequence, 7);
            assert!(p.payload.is_empty());
        }
        other => panic!("unexpected {:?}", other),
    }
    assert_eq!(reg.clients().len(), 1);
    let c = reg.clients()[0];
    assert_eq!(c.addr, addr(1234));
    assert_eq!(c.last_seen_ms, 1000);
    assert_eq!(c.packet_counter, 0);
    assert!(c.compression_enabled);

    // A second connect from the same address refreshes it.
    let again = UdpPacket::new_connect(false);
    reg.handle_packet(&again, addr(1234), 5000);
    assert_eq!(reg.clients().len(), 1);
    assert_eq!(reg.clients()[0].last_seen_ms, 5000);
    assert!(reg.clients()[0].compression_enabled);

    // Another address is a second client.
    reg.handle_packet(&again, addr(1235), 6000);
    assert_eq!(reg.clients().len(), 2);
    assert!(!reg.clients()[1].compression_enabled);
}

#[test]
fn ping_is_answered_with_a_pong() {
    let mut reg = ClientRegistry::new();
    let ping = UdpPacket::new(PacketType::Ping, 99, Vec::new());
    match reg.handle_packet(&ping, addr(1), 0) {
        ServerAction::Reply(p) => {
            assert_eq!(p.packet_type, PacketType::Pong);
            assert_eq!(p.sequence, 99);
        }
        other => panic!("unexpected {:?}", other),
    }
    assert!(reg.clients().is_empty());
}

#[test]
fn commands_are_applied_and_refresh_the_sender() {
    let mut reg = ClientRegistry::new();
    reg.handle_packet(&UdpPacket::new_connect(false), addr(2), 100);
    let cmd = UdpPacket::new(PacketType::Command, 1, UdpCommand::SetEffect(3).to_payload());
    match reg.handle_packet(&cmd, addr(2), 200) {
        ServerAction::Apply(UdpCommand::SetEffect(3)) => {}
        other => panic!("unexpected {:?}", other),
    }
    assert_eq!(reg.clients()[0].last_seen_ms, 200);

    let junk = UdpPacket::new(PacketType::Command, 2, vec![9, 9]);
    assert!(matches!(reg.handle_packet(&junk, addr(2), 300), ServerAction::Nothing));
    assert_eq!(reg.clients()[0].last_seen_ms, 300);

    // A command from an unknown address registers nobody.
    reg.handle_packet(&cmd, addr(3), 400);
    assert_eq!(reg.clients().len(), 1);
}

#[test]
fn disconnect_forgets_only_the_sender() {
    let mut reg = ClientRegistry::new();
    for p in 1..4 {
        reg.handle_packet(&UdpPacket::new_connect(false), addr(p), 0);
    }
    let bye = UdpPacket::new(PacketType::Disconnect, 0, Vec::new());
    assert!(matches!(reg.handle_packet(&bye, addr(2), 10), ServerAction::Nothing));
    let ports: Vec<u16> = reg.clients().iter().map(|c| c.addr.port).collect();
    assert_eq!(ports, vec![1, 3]);
}

#[test]
fn sweep_drops_silent_clients() {
    let mut reg = ClientRegistry::new();
    reg.handle_packet(&UdpPacket::new_connect(false), addr(1), 0);
    reg.handle_packet(&UdpPacket::new_connect(false), addr(2), 30_000);
    reg.sweep(60_000);
    let ports: Vec<u16> = reg.clients().iter().map(|c| c.addr.port).collect();
    assert_eq!(ports, vec![2]);
    reg.sweep(89_999);
    assert_eq!(reg.clients().len(), 1);
    reg.sweep(90_000);
    assert!(reg.clients().is_empty());
}

#[test]
fn cleanup_runs_every_thirty_seconds() {
    assert!(!cleanup_due(1000, 31_000));
    assert!(cleanup_due(1000, 31_001));
    assert!(!cleanup_due(5000, 10));
}

#[test]
fn transmission_stats_count_and_reset() {
    let mut stats = TransmissionStats::new(500);
    stats.add_packet(100);
    stats.add_packet(250);
    assert_eq!(stats.packets_sent, 2);
    assert_eq!(stats.bytes_sent, 350);
    assert!(!stats.should_print(10_500));
    assert!(stats.should_print(10_501));
    assert_eq!(stats.print_and_reset(12_000), (2, 350, 11_500));
    assert_eq!(stats.packets_sent, 0);
    assert_eq!(stats.bytes_sent, 0);
    assert_eq!(stats.last_print_ms, 12_000);
    assert_eq!(stats.start_ms, 500);
}

#[test]
fn test_client_info() {
    // 127.0.0.1:1234, the address mapped into IPv6.
    let client = ClientInfo {
        addr: ClientAddr { ip: 0xffff_7f00_0001, port: 1234 },
        last_seen_ms: 0,
        packet_counter: 0,
        compression_enabled: false,
    };

    assert_eq!(client.packet_counter, 0);
    assert!(!client.compression_enabled);
}
