use leshy::config::{DnsProtocol, RouteType, ZoneConfig, ZoneMode};
use leshy::matcher::{DomainMatcher, ZoneMatcher};

fn test_zone(name: &str, domains: Vec<&str>, patterns: Vec<&str>) -> ZoneConfig {
    ZoneConfig {
        name: name.to_string(),
        mode: ZoneMode::Inclusive,
        dns_servers: vec![],
        route_type: RouteType::Via,
        route_target: "192.168.1.1".to_string(),
        domains: domains.into_iter().map(String::from).collect(),
        patterns: patterns.into_iter().map(String::from).collect(),
        static_routes: vec![],
        dns_protocol: DnsProtocol::Udp,
        cache_min_ttl: None,
        cache_max_ttl: None,
        cache_negative_ttl: None,
    }
}

fn exclusive_zone(name: &str, domains: Vec<&str>, patterns: Vec<&str>) -> ZoneConfig {
    ZoneConfig {
        mode: ZoneMode::Exclusive,
        ..test_zone(name, domains, patterns)
    }
}

#[test]
fn test_domain_matcher() {
    let matcher = DomainMatcher::new("example.com").unwrap();

    // Exact match
    assert!(matcher.matches("example.com"));

    // Subdomain match
    assert!(matcher.matches("www.example.com"));
    assert!(matcher.matches("api.prod.example.com"));

    // No match
    assert!(!matcher.matches("example.org"));
    assert!(!matcher.matches("notexample.com"));
    assert!(!matcher.matches("example.com.fake"));
}

#[test]
fn test_pattern_matcher() {
    let zone = test_zone("test", vec![], vec!["intra"]);
    let matcher = ZoneMatcher::new(vec![zone]).unwrap();

    // Pattern should match substring
    assert!(matcher.find_zone("app.dev.intra.corp").is_some());
    assert!(matcher.find_zone("intra.company.com").is_some());
    assert!(matcher.find_zone("my-intra-instance").is_some());

    // No match
    assert!(matcher.find_zone("github.com").is_none());
}

#[test]
fn test_zone_precedence() {
    let zones = vec![
        ZoneConfig {
            route_target: "10.0.0.1".to_string(),
            ..test_zone("specific", vec!["api.example.com"], vec![])
        },
        ZoneConfig {
            route_target: "10.0.0.2".to_string(),
            ..test_zone("general", vec!["example.com"], vec![])
        },
    ];

    let matcher = ZoneMatcher::new(zones).unwrap();

    // Should match first zone (more specific)
    let zone = matcher.find_zone("api.example.com").unwrap();
    assert_eq!(zone.name, "specific");

    // Should match second zone
    let zone = matcher.find_zone("www.example.com").unwrap();
    assert_eq!(zone.name, "general");

    // Exact match on second zone
    let zone = matcher.find_zone("example.com").unwrap();
    assert_eq!(zone.name, "general");
}

#[test]
fn test_wildcard_pattern_star_dot_ru() {
    let zone = test_zone("ru-zone", vec![], vec!["*.ru"]);
    let matcher = ZoneMatcher::new(vec![zone]).unwrap();

    assert!(matcher.find_zone("example.ru").is_some());
    assert!(matcher.find_zone("mail.yandex.ru").is_some());
    assert!(matcher.find_zone("yandex.ru").is_some());

    assert!(matcher.find_zone("example.com").is_none());
    assert!(matcher.find_zone("ruble.com").is_none());
}

#[test]
fn test_wildcard_pattern_prefix() {
    let zone = test_zone("corp-zone", vec![], vec!["corp*"]);
    let matcher = ZoneMatcher::new(vec![zone]).unwrap();

    assert!(matcher.find_zone("corp.internal.com").is_some());
    assert!(matcher.find_zone("corporate.net").is_some());

    assert!(matcher.find_zone("my.corp").is_none());
    assert!(matcher.find_zone("example.com").is_none());
}

#[test]
fn test_exclusive_zone_basic() {
    let zone = exclusive_zone("vpn", vec!["google.com"], vec![]);
    let matcher = ZoneMatcher::new(vec![zone]).unwrap();

    // Excluded domain → no match
    assert!(matcher.find_zone("google.com").is_none());
    assert!(matcher.find_zone("www.google.com").is_none());

    // Everything else → matches exclusive zone
    assert_eq!(matcher.find_zone("example.com").unwrap().name, "vpn");
    assert_eq!(matcher.find_zone("github.com").unwrap().name, "vpn");
}

#[test]
fn test_exclusive_zone_empty_exclusion_list() {
    let zone = exclusive_zone("catch-all", vec![], vec![]);
    let matcher = ZoneMatcher::new(vec![zone]).unwrap();

    // Empty exclusion list → matches everything
    assert_eq!(matcher.find_zone("anything.com").unwrap().name, "catch-all");
    assert_eq!(matcher.find_zone("example.ru").unwrap().name, "catch-all");
}

#[test]
fn test_inclusive_then_exclusive_precedence() {
    let zones = vec![
        test_zone("corporate", vec!["internal.company.com"], vec![]),
        exclusive_zone("vpn-all", vec!["google.com"], vec!["*.ru"]),
    ];
    let matcher = ZoneMatcher::new(zones).unwrap();

    // Inclusive zone matched first
    assert_eq!(
        matcher.find_zone("internal.company.com").unwrap().name,
        "corporate"
    );

    // Not in inclusive zone, not excluded → exclusive catches it
    assert_eq!(matcher.find_zone("example.com").unwrap().name, "vpn-all");

    // Excluded from exclusive zone → no match
    assert!(matcher.find_zone("google.com").is_none());
    assert!(matcher.find_zone("yandex.ru").is_none());
}

#[test]
fn trailing_dot_and_case_are_normalized() {
    let zone = test_zone("z", vec!["example.com"], vec![]);
    let matcher = ZoneMatcher::new(vec![zone]).unwrap();
    assert_eq!(matcher.find_zone("WWW.Example.COM.").unwrap().name, "z");
}

#[test]
fn invalid_pattern_fails_construction() {
    // an unclosed character class survives the substring translation as an
    // escaped literal, so construction succeeds for it; the matcher only
    // fails when the translated regex itself is rejected, which the escaped
    // dialect prevents
    let zone = test_zone("z", vec![], vec!["[unclosed"]);
    assert!(ZoneMatcher::new(vec![zone]).is_ok());
}

#[test]
fn pattern_dot_is_literal() {
    // the substring dialect escapes regex metacharacters: a dot in the
    // pattern matches only a real dot
    let zone = test_zone("z", vec![], vec!["ru.com"]);
    let matcher = ZoneMatcher::new(vec![zone]).unwrap();
    assert!(matcher.find_zone("x.ru.com.y").is_some());
    assert!(matcher.find_zone("xruzcomy").is_none());
}
