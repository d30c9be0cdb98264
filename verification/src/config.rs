//! Configuration data model, defaults, and validation.

use vstd::prelude::*;
use vstd::string::StringExecFns;

use crate::error::LeshyError;

verus! {

/// What to do when route addition fails: return SERVFAIL to the client, or
/// continue and return the DNS response anyway (the default).
#[derive(Debug, Clone, Copy, PartialEq, Eq, Structural)]
pub enum RouteFailureMode {
    Servfail,
    Fallback,
}

/// Protocol for upstream DNS queries.
#[derive(Debug, Clone, Copy, PartialEq, Eq, Structural)]
pub enum DnsProtocol {
    Udp,
    Tcp,
}

/// Zone matching mode: match only the listed names, or everything except
/// the listed names.
#[derive(Debug, Clone, Copy, PartialEq, Eq, Structural)]
pub enum ZoneMode {
    Inclusive,
    Exclusive,
}

/// How resolved addresses are routed: via a static gateway address, or out
/// of a device named by a device file.
#[derive(Debug, Clone, Copy, PartialEq, Eq, Structural)]
pub enum RouteType {
    Via,
    Dev,
}

impl Default for DnsProtocol {
    fn default() -> (r: Self)
        ensures
            r == DnsProtocol::Udp,
    {
        DnsProtocol::Udp
    }
}

impl Default for ZoneMode {
    fn default() -> (r: Self)
        ensures
            r == ZoneMode::Inclusive,
    {
        ZoneMode::Inclusive
    }
}

pub fn default_route_failure_mode() -> (r: RouteFailureMode)
    ensures
        r == RouteFailureMode::Fallback,
{
    RouteFailureMode::Fallback
}

pub fn default_cache_size() -> (r: usize)
    ensures
        r == 1000,
{
    1000
}

pub fn default_cache_min_ttl() -> (r: u64)
    ensures
        r == 60,
{
    60
}

pub fn default_cache_max_ttl() -> (r: u64)
    ensures
        r == 3600,
{
    3600
}

pub fn default_cache_negative_ttl() -> (r: u64)
    ensures
        r == 30,
{
    30
}

/// Per-server DNS configuration with optional cache TTL overrides.
/// The address is kept as `host:port` text; socket handling happens outside
/// the library.
#[derive(Debug, Clone)]
pub struct DnsServerConfig {
    pub address: String,
    pub cache_min_ttl: Option<u64>,
    pub cache_max_ttl: Option<u64>,
    pub cache_negative_ttl: Option<u64>,
}

/// A named routing policy: matching rules, a route disposition, upstream
/// servers, and cache TTL overrides.
#[derive(Debug, Clone)]
pub struct ZoneConfig {
    pub name: String,
    pub mode: ZoneMode,
    pub dns_servers: Vec<DnsServerConfig>,
    pub route_type: RouteType,
    pub route_target: String,
    pub domains: Vec<String>,
    pub patterns: Vec<String>,
    pub static_routes: Vec<String>,
    pub dns_protocol: DnsProtocol,
    pub cache_min_ttl: Option<u64>,
    pub cache_max_ttl: Option<u64>,
    pub cache_negative_ttl: Option<u64>,
}

/// Server-wide settings. The listen address is kept as text together with
/// its port so the port rule can be checked here.
#[derive(Debug, Clone)]
pub struct ServerConfig {
    pub listen_address: String,
    pub listen_port: u16,
    pub default_upstream: Vec<String>,
    pub route_failure_mode: RouteFailureMode,
    pub auto_reload: bool,
    pub config_dir: Option<String>,
    pub cache_size: usize,
    pub cache_min_ttl: u64,
    pub cache_max_ttl: u64,
    pub cache_negative_ttl: u64,
    pub route_aggregation_prefix: Option<u8>,
}

#[derive(Debug, Clone)]
pub struct Config {
    pub server: ServerConfig,
    pub zones: Vec<ZoneConfig>,
}

/// Copy a list of strings.
pub fn clone_strings(v: &Vec<String>) -> (r: Vec<String>)
    ensures
        r@.len() == v@.len(),
        forall|j: int| 0 <= j < v@.len() ==> (#[trigger] r@[j])@ == v@[j]@,
{
    let mut out: Vec<String> = Vec::new();
    let n = v.len();
    let mut i: usize = 0;
    while i < n
        invariant
            n == v@.len(),
            i <= n,
            out@.len() == i,
            forall|j: int| 0 <= j < i ==> (#[trigger] out@[j])@ == v@[j]@,
        decreases n - i,
    {
        out.push(v[i].clone());
        i += 1;
    }
    out
}

/// Copy a list of upstream server configurations.
pub fn clone_dns_servers(v: &Vec<DnsServerConfig>) -> (r: Vec<DnsServerConfig>)
    ensures
        r@.len() == v@.len(),
        forall|j: int|
            0 <= j < v@.len() ==> {
                let a = #[trigger] r@[j];
                let b = v@[j];
                a.address@ == b.address@ && a.cache_min_ttl == b.cache_min_ttl && a.cache_max_ttl
                    == b.cache_max_ttl && a.cache_negative_ttl == b.cache_negative_ttl
            },
{
    let mut out: Vec<DnsServerConfig> = Vec::new();
    let n = v.len();
    let mut i: usize = 0;
    while i < n
        invariant
            n == v@.len(),
            i <= n,
            out@.len() == i,
            forall|j: int|
                0 <= j < i ==> {
                    let a = #[trigger] out@[j];
                    let b = v@[j];
                    a.address@ == b.address@ && a.cache_min_ttl == b.cache_min_ttl
                        && a.cache_max_ttl == b.cache_max_ttl && a.cache_negative_ttl
                        == b.cache_negative_ttl
                },
        decreases n - i,
    {
        let s = &v[i];
        out.push(
            DnsServerConfig {
                address: s.address.clone(),
                cache_min_ttl: s.cache_min_ttl,
                cache_max_ttl: s.cache_max_ttl,
                cache_negative_ttl: s.cache_negative_ttl,
            },
        );
        i += 1;
    }
    out
}

/// Two upstream server configurations hold the same values.
pub open spec fn server_entry_eqv(a: DnsServerConfig, b: DnsServerConfig) -> bool {
    a.address@ == b.address@ && a.cache_min_ttl == b.cache_min_ttl && a.cache_max_ttl
        == b.cache_max_ttl && a.cache_negative_ttl == b.cache_negative_ttl
}

/// Two zone configurations hold the same values in every field.
pub open spec fn zone_eqv(a: ZoneConfig, b: ZoneConfig) -> bool {
    &&& a.name@ == b.name@
    &&& a.mode == b.mode
    &&& a.route_type == b.route_type
    &&& a.route_target@ == b.route_target@
    &&& a.dns_protocol == b.dns_protocol
    &&& a.cache_min_ttl == b.cache_min_ttl
    &&& a.cache_max_ttl == b.cache_max_ttl
    &&& a.cache_negative_ttl == b.cache_negative_ttl
    &&& a.domains@.map_values(|s: String| s@) == b.domains@.map_values(|s: String| s@)
    &&& a.patterns@.map_values(|s: String| s@) == b.patterns@.map_values(|s: String| s@)
    &&& a.static_routes@.map_values(|s: String| s@) == b.static_routes@.map_values(
        |s: String| s@,
    )
    &&& a.dns_servers@.len() == b.dns_servers@.len()
    &&& (forall|j: int|
        0 <= j < a.dns_servers@.len() ==> server_entry_eqv(
            (#[trigger] a.dns_servers@[j]),
            b.dns_servers@[j],
        ))
}

/// Copy a zone configuration field by field.
pub fn clone_zone(z: &ZoneConfig) -> (r: ZoneConfig)
    ensures
        zone_eqv(r, *z),
{
    let r = ZoneConfig {
        name: z.name.clone(),
        mode: z.mode,
        dns_servers: clone_dns_servers(&z.dns_servers),
        route_type: z.route_type,
        route_target: z.route_target.clone(),
        domains: clone_strings(&z.domains),
        patterns: clone_strings(&z.patterns),
        static_routes: clone_strings(&z.static_routes),
        dns_protocol: z.dns_protocol,
        cache_min_ttl: z.cache_min_ttl,
        cache_max_ttl: z.cache_max_ttl,
        cache_negative_ttl: z.cache_negative_ttl,
    };
    proof {
        assert(r.domains@.map_values(|s: String| s@) =~= z.domains@.map_values(|s: String| s@));
        assert(r.patterns@.map_values(|s: String| s@) =~= z.patterns@.map_values(|s: String| s@));
        assert(r.static_routes@.map_values(|s: String| s@) =~= z.static_routes@.map_values(
            |s: String| s@,
        ));
    }
    r
}

/// An inclusive zone must bring at least one rule or static route.
pub open spec fn spec_zone_nonempty(z: ZoneConfig) -> bool {
    z.mode == ZoneMode::Exclusive || z.domains@.len() > 0 || z.patterns@.len() > 0
        || z.static_routes@.len() > 0
}

/// Every rule a configuration must satisfy to be accepted.
pub open spec fn spec_config_valid(c: Config) -> bool {
    &&& c.server.listen_port != 0
    &&& c.server.default_upstream@.len() > 0
    &&& (forall|i: int| 0 <= i < c.zones@.len() ==> spec_zone_nonempty(#[trigger] c.zones@[i]))
    &&& (forall|i: int, j: int|
        0 <= i < c.zones@.len() && 0 <= j < c.zones@[i].patterns@.len()
            ==> crate::pattern::regex_compiles((#[trigger] c.zones@[i].patterns@[j])@))
    &&& (match c.server.route_aggregation_prefix {
        Some(p) => 8 <= p <= 32,
        None => true,
    })
    &&& (forall|i: int, j: int|
        0 <= i < c.zones@.len() && 0 <= j < c.zones@.len() && i != j ==> (
        #[trigger] c.zones@[i]).name@ != (#[trigger] c.zones@[j]).name@)
}

impl Config {
    /// Check every validation rule: the listen port is set, a default
    /// upstream exists, inclusive zones are not empty, every pattern is an
    /// acceptable regex, the aggregation prefix is in range, and zone names
    /// are unique.
    pub fn validate(&self) -> (r: Result<(), LeshyError>)
        ensures
            r is Ok <==> spec_config_valid(*self),
            r is Err ==> r.unwrap_err() is Config,
    {
        if self.server.listen_port == 0 {
            return Err(LeshyError::Config("Server listen port cannot be 0".to_owned()));
        }
        if self.server.default_upstream.len() == 0 {
            return Err(LeshyError::Config("default_upstream cannot be empty".to_owned()));
        }
        let n = self.zones.len();
        let mut i: usize = 0;
        while i < n
            invariant
                n == self.zones@.len(),
                i <= n,
                forall|k: int| 0 <= k < i ==> spec_zone_nonempty(#[trigger] self.zones@[k]),
                forall|k: int, j: int|
                    0 <= k < i && 0 <= j < self.zones@[k].patterns@.len()
                        ==> crate::pattern::regex_compiles(
                        (#[trigger] self.zones@[k].patterns@[j])@,
                    ),
            decreases n - i,
        {
            let zone = &self.zones[i];
            match zone.mode {
                ZoneMode::Inclusive => {
                    if zone.domains.len() == 0 && zone.patterns.len() == 0
                        && zone.static_routes.len() == 0 {
                        let mut msg = "zone ".to_owned();
                        msg.append(zone.name.as_str());
                        msg.append(" must have at least one domain, pattern, or static route");
                        return Err(LeshyError::Config(msg));
                    }
                },
                ZoneMode::Exclusive => {
                },
            }
            let pn = zone.patterns.len();
            let mut j: usize = 0;
            while j < pn
                invariant
                    0 <= i < self.zones@.len(),
                    pn == self.zones@[i as int].patterns@.len(),
                    j <= pn,
                    forall|k: int|
                        0 <= k < j ==> crate::pattern::regex_compiles(
                            (#[trigger] self.zones@[i as int].patterns@[k])@,
                        ),
                decreases pn - j,
            {
                if !crate::pattern::regex_syntax_ok(self.zones[i].patterns[j].as_str()) {
                    let mut msg = "zone ".to_owned();
                    msg.append(self.zones[i].name.as_str());
                    msg.append(": invalid regex pattern ");
                    msg.append(self.zones[i].patterns[j].as_str());
                    return Err(LeshyError::Config(msg));
                }
                j += 1;
            }
            i += 1;
        }
        match self.server.route_aggregation_prefix {
            Some(p) => {
                if p < 8 || p > 32 {
                    return Err(
                        LeshyError::Config(
                            "route_aggregation_prefix must be between 8 and 32".to_owned(),
                        ),
                    );
                }
            },
            None => {
            },
        }
        let mut a: usize = 0;
        while a < n
            invariant
                n == self.zones@.len(),
                a <= n,
                forall|k: int, j: int|
                    0 <= k < a && 0 <= j < self.zones@.len() && k != j ==> (
                    #[trigger] self.zones@[k]).name@ != (#[trigger] self.zones@[j]).name@,
            decreases n - a,
        {
            let mut b: usize = a + 1;
            while b < n
                invariant
                    n == self.zones@.len(),
                    a < b || b == a + 1,
                    a < n,
                    a + 1 <= b <= n,
                    forall|j: int|
                        a < j < b ==> (#[trigger] self.zones@[j]).name@ != self.zones@[a as int].name@,
                    forall|k: int, j: int|
                        0 <= k < a && 0 <= j < self.zones@.len() && k != j ==> (
                        #[trigger] self.zones@[k]).name@ != (#[trigger] self.zones@[j]).name@,
                decreases n - b,
            {
                if crate::text::str_eq(self.zones[a].name.as_str(), self.zones[b].name.as_str()) {
                    let mut msg = "duplicate zone name: ".to_owned();
                    msg.append(self.zones[a].name.as_str());
                    return Err(LeshyError::Config(msg));
                }
                b += 1;
            }
            proof {
                assert forall|k: int, j: int|
                    0 <= k < a + 1 && 0 <= j < self.zones@.len() && k != j implies (
                #[trigger] self.zones@[k]).name@ != (#[trigger] self.zones@[j]).name@ by {
                    if k == a {
                        if j > a {
                            assert(self.zones@[j].name@ != self.zones@[a as int].name@);
                        } else {
                            assert(self.zones@[j].name@ != self.zones@[k].name@);
                        }
                    }
                }
            }
            a += 1;
        }
        Ok(())
    }
}

} // verus!
