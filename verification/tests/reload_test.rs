use leshy::config::{DnsProtocol, RouteType, ZoneConfig, ZoneMode};
use leshy::reload::{get_new_zones, get_zones_to_cleanup};

fn test_zone(name: &str, route_type: RouteType, route_target: &str) -> ZoneConfig {
    ZoneConfig {
        name: name.to_string(),
        mode: ZoneMode::Inclusive,
        dns_servers: vec![],
        route_type,
        route_target: route_target.to_string(),
        domains: vec![],
        patterns: vec![],
        static_routes: vec![],
        dns_protocol: DnsProtocol::Udp,
        cache_min_ttl: None,
        cache_max_ttl: None,
        cache_negative_ttl: None,
    }
}

#[test]
fn test_get_zones_to_cleanup() {
    let old_zones = vec![
        test_zone("zone1", RouteType::Via, "192.168.1.1"),
        test_zone("zone2", RouteType::Via, "192.168.1.1"),
    ];

    let new_zones = vec![test_zone("zone2", RouteType::Via, "192.168.1.1")];

    let to_cleanup = get_zones_to_cleanup(&old_zones, &new_zones);
    assert_eq!(to_cleanup.len(), 1);
    assert!(to_cleanup.contains(&"zone1".to_string()));
}

#[test]
fn test_get_new_zones() {
    let old_zones = vec![test_zone("zone1", RouteType::Via, "192.168.1.1")];

    let new_zones = vec![
        test_zone("zone1", RouteType::Via, "192.168.1.1"),
        test_zone("zone2", RouteType::Dev, "/tmp/test.dev"),
    ];

    let new = get_new_zones(&old_zones, &new_zones);
    assert_eq!(new.len(), 1);
    assert_eq!(new[0].name, "zone2");
}
