use leshy::aggregator::{RouteAction, RouteAggregator};
use leshy::config::RouteType;
use leshy::net::{ipv4_from_octets, network_address, split_network};

#[test]
fn basic_aggregation() {
    let mut agg = RouteAggregator::new(Some(24));
    let actions = agg.process_ip(
        ipv4_from_octets(10, 0, 0, 5),
        "zone1",
        RouteType::Via,
        "192.168.1.1",
    );
    assert_eq!(actions.len(), 1);
    assert_eq!(
        actions[0],
        RouteAction::Add {
            network: ipv4_from_octets(10, 0, 0, 0),
            prefix_len: 24,
            route_type: RouteType::Via,
            route_target: "192.168.1.1".to_string(),
        }
    );
}

#[test]
fn same_zone_noop() {
    let mut agg = RouteAggregator::new(Some(24));
    agg.process_ip(
        ipv4_from_octets(10, 0, 0, 5),
        "zone1",
        RouteType::Via,
        "192.168.1.1",
    );

    // Second IP in same /24, same zone — no new actions
    let actions = agg.process_ip(
        ipv4_from_octets(10, 0, 0, 100),
        "zone1",
        RouteType::Via,
        "192.168.1.1",
    );
    assert!(actions.is_empty());
}

#[test]
fn cross_zone_conflict_splits_aggregate() {
    let mut agg = RouteAggregator::new(Some(24));
    agg.process_ip(
        ipv4_from_octets(10, 0, 0, 5),
        "zone1",
        RouteType::Via,
        "192.168.1.1",
    );

    // Different zone, same /24 — must split
    let actions = agg.process_ip(
        ipv4_from_octets(10, 0, 0, 200),
        "zone2",
        RouteType::Via,
        "192.168.2.1",
    );

    // Should have: 1 Remove + 8 sibling Adds (24->32 = 8 splits) + 1 /32 Add = 10 actions
    let removes: Vec<_> = actions
        .iter()
        .filter(|a| matches!(a, RouteAction::Remove { .. }))
        .collect();
    let adds: Vec<_> = actions
        .iter()
        .filter(|a| matches!(a, RouteAction::Add { .. }))
        .collect();

    assert_eq!(removes.len(), 1);
    assert_eq!(
        removes[0],
        &RouteAction::Remove {
            network: ipv4_from_octets(10, 0, 0, 0),
            prefix_len: 24,
        }
    );

    // 8 siblings for zone1 + 1 /32 for zone2 = 9 adds
    assert_eq!(adds.len(), 9);

    // The last add should be the /32 for the conflicting IP
    assert_eq!(
        *adds.last().unwrap(),
        &RouteAction::Add {
            network: ipv4_from_octets(10, 0, 0, 200),
            prefix_len: 32,
            route_type: RouteType::Via,
            route_target: "192.168.2.1".to_string(),
        }
    );
}

#[test]
fn new_aggregate_with_preexisting_conflicts() {
    let mut agg = RouteAggregator::new(Some(24));

    // First, add an IP in zone2 at 10.0.0.100
    agg.process_ip(
        ipv4_from_octets(10, 0, 0, 100),
        "zone2",
        RouteType::Via,
        "192.168.2.1",
    );

    // Now add an IP in zone1 at 10.0.0.5 — same /24, but zone1 wants the aggregate
    // The aggregate for zone1 must carve out 10.0.0.100 which belongs to zone2
    let actions = agg.process_ip(
        ipv4_from_octets(10, 0, 0, 5),
        "zone1",
        RouteType::Via,
        "192.168.1.1",
    );

    // Should install the /24 aggregate, then immediately split around
    // the conflicting 10.0.0.100
    let adds: Vec<_> = actions
        .iter()
        .filter(|a| matches!(a, RouteAction::Add { .. }))
        .collect();
    let removes: Vec<_> = actions
        .iter()
        .filter(|a| matches!(a, RouteAction::Remove { .. }))
        .collect();

    // At least one add and one remove (the original /24 gets removed during carve-out)
    assert!(!adds.is_empty());
    assert!(!removes.is_empty());

    // The /32 for 10.0.0.100 should NOT be in the adds (it belongs to zone2,
    // already installed). Verify no /32 for 10.0.0.100 with zone1's target.
    let conflict_adds: Vec<_> = adds
        .iter()
        .filter(|a| {
            matches!(a, RouteAction::Add { network, prefix_len: 32, .. } if *network == ipv4_from_octets(10, 0, 0, 100))
        })
        .collect();
    assert!(conflict_adds.is_empty());
}

#[test]
fn disabled_always_returns_32() {
    // prefix_len = 32 means disabled
    let mut agg = RouteAggregator::new(Some(32));
    let actions = agg.process_ip(
        ipv4_from_octets(10, 0, 0, 5),
        "zone1",
        RouteType::Via,
        "192.168.1.1",
    );
    assert_eq!(actions.len(), 1);
    assert_eq!(
        actions[0],
        RouteAction::Add {
            network: ipv4_from_octets(10, 0, 0, 5),
            prefix_len: 32,
            route_type: RouteType::Via,
            route_target: "192.168.1.1".to_string(),
        }
    );

    // Same IP again — no-op
    let actions2 = agg.process_ip(
        ipv4_from_octets(10, 0, 0, 5),
        "zone1",
        RouteType::Via,
        "192.168.1.1",
    );
    assert!(actions2.is_empty());
}

#[test]
fn disabled_none_always_returns_32() {
    // None means disabled
    let mut agg = RouteAggregator::new(None);
    let actions = agg.process_ip(
        ipv4_from_octets(10, 0, 0, 5),
        "zone1",
        RouteType::Via,
        "192.168.1.1",
    );
    assert_eq!(actions.len(), 1);
    assert_eq!(
        actions[0],
        RouteAction::Add {
            network: ipv4_from_octets(10, 0, 0, 5),
            prefix_len: 32,
            route_type: RouteType::Via,
            route_target: "192.168.1.1".to_string(),
        }
    );
}

#[test]
fn cleanup_zone_removes_tracking() {
    let mut agg = RouteAggregator::new(Some(24));
    agg.process_ip(
        ipv4_from_octets(10, 0, 0, 5),
        "zone1",
        RouteType::Via,
        "192.168.1.1",
    );
    agg.process_ip(
        ipv4_from_octets(10, 1, 0, 5),
        "zone2",
        RouteType::Via,
        "192.168.2.1",
    );

    agg.cleanup_zone("zone1");

    // zone1's aggregate should be gone from installed
    assert!(!agg.has_installed_for_zone("zone1"));
    // zone1's known IPs should be gone
    assert!(!agg.has_known_ip_for_zone("zone1"));
    // zone2 should still be present
    assert!(agg.has_installed_for_zone("zone2"));
}

#[test]
fn register_static_ip_prevents_overlap() {
    let mut agg = RouteAggregator::new(Some(24));

    // Register a static IP for zone2 in the 10.0.0.0/24 range
    agg.register_static_ip(ipv4_from_octets(10, 0, 0, 50), "zone2");

    // Now zone1 wants to aggregate in that range — should carve out 10.0.0.50
    let actions = agg.process_ip(
        ipv4_from_octets(10, 0, 0, 5),
        "zone1",
        RouteType::Via,
        "192.168.1.1",
    );

    // Should have carve-out: initial add + remove + sibling adds
    let removes: Vec<_> = actions
        .iter()
        .filter(|a| matches!(a, RouteAction::Remove { .. }))
        .collect();
    assert!(!removes.is_empty());
}

#[test]
fn network_address_computation() {
    assert_eq!(
        network_address(ipv4_from_octets(10, 0, 0, 5), 24),
        ipv4_from_octets(10, 0, 0, 0)
    );
    assert_eq!(
        network_address(ipv4_from_octets(10, 0, 0, 255), 24),
        ipv4_from_octets(10, 0, 0, 0)
    );
    assert_eq!(
        network_address(ipv4_from_octets(104, 16, 132, 229), 22),
        ipv4_from_octets(104, 16, 132, 0)
    );
    assert_eq!(
        network_address(ipv4_from_octets(192, 168, 1, 100), 32),
        ipv4_from_octets(192, 168, 1, 100)
    );
}

#[test]
fn split_network_correctness() {
    let net = ipv4_from_octets(10, 0, 0, 0);
    let (left, right) = split_network(net, 24);
    assert_eq!(left, ipv4_from_octets(10, 0, 0, 0));
    assert_eq!(right, ipv4_from_octets(10, 0, 0, 128));
}

#[test]
fn repeat_process_ip_emits_nothing() {
    let mut agg = RouteAggregator::new(Some(24));
    let first = agg.process_ip(
        ipv4_from_octets(172, 16, 3, 9),
        "z1",
        RouteType::Via,
        "192.168.1.1",
    );
    assert!(!first.is_empty());
    let second = agg.process_ip(
        ipv4_from_octets(172, 16, 3, 9),
        "z1",
        RouteType::Via,
        "192.168.1.1",
    );
    assert!(second.is_empty());
}

#[test]
fn static_ip_same_zone_keeps_aggregate_whole() {
    let mut agg = RouteAggregator::new(Some(24));
    // The static address belongs to the same zone, so it is no conflict and
    // the aggregate stays in one piece, covering it.
    agg.register_static_ip(ipv4_from_octets(10, 0, 0, 50), "z1");
    let actions = agg.process_ip(
        ipv4_from_octets(10, 0, 0, 5),
        "z1",
        RouteType::Via,
        "192.168.1.1",
    );
    assert_eq!(actions.len(), 1);
    assert_eq!(
        actions[0],
        RouteAction::Add {
            network: ipv4_from_octets(10, 0, 0, 0),
            prefix_len: 24,
            route_type: RouteType::Via,
            route_target: "192.168.1.1".to_string(),
        }
    );
}
