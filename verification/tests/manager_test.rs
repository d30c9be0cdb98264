use leshy::config::{DnsProtocol, RouteType, ZoneConfig, ZoneMode};
use leshy::error::LeshyError;
use leshy::manager::{install_outcome_ok, parse_cidr, parse_ipv4, CidrTarget, HostAddr, RouteManager};
use leshy::net::ipv4_from_octets;

fn zone(name: &str) -> ZoneConfig {
    ZoneConfig {
        name: name.to_string(),
        mode: ZoneMode::Inclusive,
        dns_servers: vec![],
        route_type: RouteType::Via,
        route_target: "192.168.1.1".to_string(),
        domains: vec!["example.com".to_string()],
        patterns: vec![],
        static_routes: vec![],
        dns_protocol: DnsProtocol::Udp,
        cache_min_ttl: None,
        cache_max_ttl: None,
        cache_negative_ttl: None,
    }
}

#[test]
fn parse_ipv4_dotted_quad() {
    assert_eq!(parse_ipv4("10.0.0.5"), Some(ipv4_from_octets(10, 0, 0, 5)));
    assert_eq!(parse_ipv4("255.255.255.255"), Some(u32::MAX));
    assert_eq!(parse_ipv4("0.0.0.0"), Some(0));
    assert_eq!(parse_ipv4("256.0.0.1"), None);
    assert_eq!(parse_ipv4("1.2.3"), None);
    assert_eq!(parse_ipv4("1.2.3.4.5"), None);
    assert_eq!(parse_ipv4("a.b.c.d"), None);
    assert_eq!(parse_ipv4(""), None);
}

#[test]
fn parse_cidr_variants() {
    match parse_cidr("149.154.160.0/20") {
        Ok(CidrTarget::V4 { ip, prefix_len }) => {
            assert_eq!(ip, ipv4_from_octets(149, 154, 160, 0));
            assert_eq!(prefix_len, 20);
        }
        other => panic!("unexpected parse: {:?}", other.is_ok()),
    }
    match parse_cidr("1.2.3.4") {
        Ok(CidrTarget::V4 { ip, prefix_len }) => {
            assert_eq!(ip, ipv4_from_octets(1, 2, 3, 4));
            assert_eq!(prefix_len, 32);
        }
        other => panic!("unexpected parse: {:?}", other.is_ok()),
    }
    match parse_cidr("fd00::1/64") {
        Ok(CidrTarget::V6 { addr_text, prefix_len }) => {
            assert_eq!(addr_text, "fd00::1");
            assert_eq!(prefix_len, 64);
        }
        other => panic!("unexpected parse: {:?}", other.is_ok()),
    }
    assert!(matches!(parse_cidr("10.0.0.0/33"), Err(LeshyError::Parse(_))));
    assert!(matches!(parse_cidr("notanip"), Err(LeshyError::Parse(_))));
    assert!(matches!(parse_cidr("10.0.0.0/abc"), Err(LeshyError::Parse(_))));
    // a colon alone is not an IPv6 address
    assert!(matches!(parse_cidr(":"), Err(LeshyError::Parse(_))));
    assert!(matches!(parse_cidr("not:an:address/64"), Err(LeshyError::Parse(_))));
    assert!(matches!(parse_cidr("fd00::1/129"), Err(LeshyError::Parse(_))));
}

#[test]
fn static_route_registers_with_aggregator() {
    let mut mgr = RouteManager::new(Some(24));
    let z2 = zone("zone2");
    let target = mgr.add_static_route("10.0.0.50/32", &z2).unwrap();
    assert!(matches!(target, CidrTarget::V4 { prefix_len: 32, .. }));

    // a later aggregate for another zone must carve around the static IP
    let z1 = zone("zone1");
    let actions = mgr.add_route_v4(ipv4_from_octets(10, 0, 0, 5), &z1);
    assert!(actions.len() > 1);
}

#[test]
fn zone_route_counting_and_cleanup() {
    let mut mgr = RouteManager::new(Some(24));
    assert_eq!(mgr.get_zone_route_count("z1"), 0);

    mgr.record_route("z1", HostAddr::V4(ipv4_from_octets(10, 0, 0, 1)));
    mgr.record_route("z1", HostAddr::V4(ipv4_from_octets(10, 0, 0, 2)));
    // recording the same address twice counts once
    mgr.record_route("z1", HostAddr::V4(ipv4_from_octets(10, 0, 0, 2)));
    mgr.record_route("z2", HostAddr::V6(1));
    assert_eq!(mgr.get_zone_route_count("z1"), 2);
    assert_eq!(mgr.get_zone_route_count("z2"), 1);

    mgr.cleanup_zone("z1");
    assert_eq!(mgr.get_zone_route_count("z1"), 0);
    assert_eq!(mgr.get_zone_route_count("z2"), 1);
}

#[test]
fn install_outcome_tolerates_known_complaints() {
    assert!(install_outcome_ok(true, "", "File exists"));
    assert!(install_outcome_ok(
        false,
        "route: writing to routing socket: File exists",
        "File exists"
    ));
    assert!(install_outcome_ok(false, "route: not in table", "not in table"));
    assert!(!install_outcome_ok(false, "route: permission denied", "File exists"));
    assert!(!install_outcome_ok(false, "", "not in table"));
}
