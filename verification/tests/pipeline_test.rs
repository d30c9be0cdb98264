use leshy::config::{Config, DnsProtocol, DnsServerConfig, RouteFailureMode, RouteType, ServerConfig, ZoneConfig, ZoneMode};
use leshy::error::LeshyError;
use leshy::failover::{run_failover, select_upstreams, Attempt, Failover, Verdict, RCODE_SERVFAIL};
use leshy::framing::{decode_u16_be, encode_u16_be, frame_tcp_message};
use leshy::ttl::resolve_cache_ttl;

fn base_server() -> ServerConfig {
    ServerConfig {
        listen_address: "127.0.0.1".to_string(),
        listen_port: 53,
        default_upstream: vec!["8.8.8.8:53".to_string()],
        route_failure_mode: RouteFailureMode::Fallback,
        auto_reload: false,
        config_dir: None,
        cache_size: 1000,
        cache_min_ttl: 60,
        cache_max_ttl: 3600,
        cache_negative_ttl: 30,
        route_aggregation_prefix: None,
    }
}

fn zone_with_servers(name: &str, servers: Vec<&str>, protocol: DnsProtocol) -> ZoneConfig {
    ZoneConfig {
        name: name.to_string(),
        mode: ZoneMode::Inclusive,
        dns_servers: servers
            .into_iter()
            .map(|a| DnsServerConfig {
                address: a.to_string(),
                cache_min_ttl: None,
                cache_max_ttl: None,
                cache_negative_ttl: None,
            })
            .collect(),
        route_type: RouteType::Via,
        route_target: "192.168.1.1".to_string(),
        domains: vec!["example.com".to_string()],
        patterns: vec![],
        static_routes: vec![],
        dns_protocol: protocol,
        cache_min_ttl: None,
        cache_max_ttl: None,
        cache_negative_ttl: None,
    }
}

#[test]
fn tcp_framing_prefixes_big_endian_length() {
    let msg: Vec<u8> = vec![0xAB; 300];
    let framed = frame_tcp_message(&msg);
    assert_eq!(framed.len(), 302);
    // 300 = 0x012C
    assert_eq!(framed[0], 0x01);
    assert_eq!(framed[1], 0x2C);
    assert_eq!(&framed[2..], &msg[..]);
    assert_eq!(decode_u16_be(framed[0], framed[1]), 300);
}

#[test]
fn length_bytes_round_trip() {
    for v in [0u16, 1, 255, 256, 512, 65535] {
        let (hi, lo) = encode_u16_be(v);
        assert_eq!(decode_u16_be(hi, lo), v);
    }
}

#[test]
fn failover_stops_at_first_success() {
    // A drops packets, B answers, C is never contacted
    let outcomes = vec![Attempt::Failed(RCODE_SERVFAIL), Attempt::Answered, Attempt::Failed(3)];
    assert_eq!(run_failover(&outcomes), Verdict::Success(1));
}

#[test]
fn failover_surfaces_last_error() {
    let outcomes = vec![Attempt::Failed(2), Attempt::Failed(5), Attempt::Failed(3)];
    assert_eq!(run_failover(&outcomes), Verdict::Fail(3));
    assert_eq!(run_failover(&Vec::new()), Verdict::Fail(RCODE_SERVFAIL));
}

#[test]
fn failover_machine_walks_in_order() {
    let mut st = Failover::new(3);
    assert_eq!(st.current(), Some(0));
    st.record_failure(2);
    assert_eq!(st.current(), Some(1));
    st.record_success();
    assert_eq!(st.current(), None);
    assert_eq!(st.verdict(), Verdict::Success(1));
}

#[test]
fn upstream_selection_prefers_zone_servers() {
    let zone = zone_with_servers("z", vec!["10.0.0.1:53"], DnsProtocol::Tcp);
    let (use_zone, protocol) = select_upstreams(Some(&zone));
    assert!(use_zone);
    assert_eq!(protocol, DnsProtocol::Tcp);

    let empty = zone_with_servers("z2", vec![], DnsProtocol::Tcp);
    let (use_zone2, protocol2) = select_upstreams(Some(&empty));
    assert!(!use_zone2);
    assert_eq!(protocol2, DnsProtocol::Udp);

    let (use_zone3, protocol3) = select_upstreams(None);
    assert!(!use_zone3);
    assert_eq!(protocol3, DnsProtocol::Udp);
}

#[test]
fn negative_ttl_for_nxdomain_and_empty_answers() {
    let server = base_server();
    // NXDOMAIN with defaults: negative_ttl = 30
    assert_eq!(resolve_cache_ttl(None, None, &server, true, &vec![]), 30);
    // empty answer section counts as negative too
    assert_eq!(resolve_cache_ttl(None, None, &server, false, &vec![]), 30);
}

#[test]
fn ttl_is_min_answer_clamped() {
    let server = base_server();
    // min of answers, clamped into [60, 3600]
    assert_eq!(resolve_cache_ttl(None, None, &server, false, &vec![300, 120, 900]), 120);
    assert_eq!(resolve_cache_ttl(None, None, &server, false, &vec![5]), 60);
    assert_eq!(resolve_cache_ttl(None, None, &server, false, &vec![90000]), 3600);
}

#[test]
fn ttl_cascade_prefers_server_then_zone() {
    let server = base_server();
    let mut zone = zone_with_servers("z", vec!["10.0.0.1:53"], DnsProtocol::Udp);
    zone.cache_negative_ttl = Some(120);
    let per_server = DnsServerConfig {
        address: "10.0.0.1:53".to_string(),
        cache_min_ttl: None,
        cache_max_ttl: None,
        cache_negative_ttl: Some(7),
    };
    // server override wins over zone and global
    assert_eq!(resolve_cache_ttl(Some(&per_server), Some(&zone), &server, true, &vec![]), 7);
    // zone override wins over global
    assert_eq!(resolve_cache_ttl(None, Some(&zone), &server, true, &vec![]), 120);
}

#[test]
fn validate_accepts_and_rejects() {
    let mut config = Config { server: base_server(), zones: vec![] };
    assert!(config.validate().is_ok());

    config.zones.push(zone_with_servers("z1", vec![], DnsProtocol::Udp));
    assert!(config.validate().is_ok());

    // port 0 is rejected
    let mut bad = config.clone();
    bad.server.listen_port = 0;
    assert!(matches!(bad.validate(), Err(LeshyError::Config(_))));

    // empty default upstream is rejected
    let mut bad = config.clone();
    bad.server.default_upstream = vec![];
    assert!(bad.validate().is_err());

    // an inclusive zone without rules is rejected
    let mut empty_zone = zone_with_servers("empty", vec![], DnsProtocol::Udp);
    empty_zone.domains = vec![];
    let mut bad = config.clone();
    bad.zones.push(empty_zone);
    assert!(bad.validate().is_err());

    // a pattern that is not a valid regex is rejected
    let mut bad_zone = zone_with_servers("badpat", vec![], DnsProtocol::Udp);
    bad_zone.patterns = vec!["[unclosed".to_string()];
    let mut bad = config.clone();
    bad.zones.push(bad_zone);
    assert!(bad.validate().is_err());

    // aggregation prefix out of range is rejected
    let mut bad = config.clone();
    bad.server.route_aggregation_prefix = Some(40);
    assert!(bad.validate().is_err());

    // duplicate zone names are rejected
    let mut bad = config.clone();
    bad.zones.push(zone_with_servers("z1", vec![], DnsProtocol::Udp));
    assert!(bad.validate().is_err());
}
