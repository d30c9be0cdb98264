//! The route manager: owns the aggregator and the per-zone bookkeeping of
//! installed host addresses, and parses CIDR text for static routes.
//! Executing the emitted route actions against the kernel happens outside
//! the library.

use vstd::prelude::*;
use vstd::string::StrSliceExecFns;

use crate::aggregator::{acts_model, process_ip_post, RouteAction, RouteAggregator};
use crate::config::ZoneConfig;
use crate::error::LeshyError;
use crate::text::str_eq;

verus! {

/// A host address of either family.
#[derive(Debug, Clone, Copy, PartialEq, Eq, Structural)]
pub enum HostAddr {
    V4(u32),
    V6(u128),
}

/// The value of a decimal digit sequence, most significant first.
pub open spec fn spec_digits_val(p: Seq<char>) -> int
    decreases p.len(),
{
    if p.len() == 0 {
        0
    } else {
        spec_digits_val(p.drop_last()) * 10 + (p.last() as int - '0' as int)
    }
}

/// Every character is a decimal digit.
pub open spec fn spec_all_digits(p: Seq<char>) -> bool {
    forall|i: int| 0 <= i < p.len() ==> '0' <= #[trigger] p[i] <= '9'
}

/// A decimal number of one to three digits, at most 255.
pub open spec fn spec_octet(p: Seq<char>) -> Option<u8> {
    if 1 <= p.len() <= 3 && spec_all_digits(p) && spec_digits_val(p) <= 255 {
        Some(spec_digits_val(p) as u8)
    } else {
        None
    }
}

/// The position of the first `/`, or the length when there is none.
pub open spec fn spec_first_slash(s: Seq<char>) -> int
    decreases s.len(),
{
    if s.len() == 0 {
        0
    } else if s.first() == '/' {
        0
    } else {
        1 + spec_first_slash(s.drop_first())
    }
}

/// An address text is IPv6-shaped when it holds a colon.
pub open spec fn spec_has_colon(s: Seq<char>) -> bool {
    exists|i: int| 0 <= i < s.len() && s[i] == ':'
}

/// Whether a text is a well-formed IPv6 address, as the standard library's
/// address parser accepts it.
pub uninterp spec fn ipv6_text_ok(s: Seq<char>) -> bool;

/// Relies on core::net::Ipv6Addr's FromStr: acceptance depends on the
/// characters alone, and parsing never panics.
#[verifier::external_body]
fn parse_ipv6_ok(s: &str) -> (r: bool)
    ensures
        r == ipv6_text_ok(s@),
{
    s.parse::<core::net::Ipv6Addr>().is_ok()
}

/// A dotted-quad IPv4 address: four octets separated by single dots.
pub open spec fn spec_parse_ipv4(s: Seq<char>) -> Option<u32> {
    let parts = spec_split_dot(s);
    if parts.len() == 4 && spec_octet(parts[0]) is Some && spec_octet(parts[1]) is Some
        && spec_octet(parts[2]) is Some && spec_octet(parts[3]) is Some {
        Some(
            crate::net::spec_ipv4_from_octets(
                spec_octet(parts[0]).unwrap(),
                spec_octet(parts[1]).unwrap(),
                spec_octet(parts[2]).unwrap(),
                spec_octet(parts[3]).unwrap(),
            ),
        )
    } else {
        None
    }
}

/// The fragments of a text between dots, split from the front.
pub open spec fn spec_split_dot(s: Seq<char>) -> Seq<Seq<char>>
    decreases s.len(),
{
    if s.len() == 0 {
        seq![Seq::<char>::empty()]
    } else {
        let prev = spec_split_dot(s.drop_last());
        if s.last() == '.' {
            prev + seq![Seq::<char>::empty()]
        } else {
            prev.drop_last().push(prev.last().push(s.last()))
        }
    }
}

/// What a CIDR text denotes: a network address and prefix length of either
/// family. An IPv6 address is validated and carried as text; the caller
/// converts it to its binary form.
pub enum CidrTarget {
    V4 { ip: u32, prefix_len: u8 },
    V6 { addr_text: String, prefix_len: u8 },
}

/// The parse of a CIDR text: the part before the first `/` is the address,
/// an optional part after it the prefix length, defaulting to the family's
/// host-route length.
pub open spec fn spec_cidr_ok(s: Seq<char>) -> bool {
    let fs = spec_first_slash(s);
    let addr = s.subrange(0, fs);
    if spec_has_colon(addr) {
        if !ipv6_text_ok(addr) {
            false
        } else if fs == s.len() {
            true
        } else {
            match spec_octet(s.subrange(fs + 1, s.len() as int)) {
                Some(p) => p <= 128,
                None => false,
            }
        }
    } else {
        match spec_parse_ipv4(addr) {
            Some(_) => if fs == s.len() {
                true
            } else {
                match spec_octet(s.subrange(fs + 1, s.len() as int)) {
                    Some(p) => p <= 32,
                    None => false,
                }
            },
            None => false,
        }
    }
}

/// The prefix length a valid CIDR text denotes.
pub open spec fn spec_cidr_prefix(s: Seq<char>) -> u8 {
    let fs = spec_first_slash(s);
    let addr = s.subrange(0, fs);
    if fs == s.len() {
        if spec_has_colon(addr) {
            128u8
        } else {
            32u8
        }
    } else {
        match spec_octet(s.subrange(fs + 1, s.len() as int)) {
            Some(p) => p,
            None => 0u8,
        }
    }
}

/// A digit sequence's value is bounded by its length.
proof fn lemma_digits_bound(p: Seq<char>)
    requires
        spec_all_digits(p),
        p.len() <= 3,
    ensures
        0 <= spec_digits_val(p),
        p.len() == 0 ==> spec_digits_val(p) == 0,
        p.len() <= 1 ==> spec_digits_val(p) <= 9,
        p.len() <= 2 ==> spec_digits_val(p) <= 99,
        spec_digits_val(p) <= 999,
    decreases p.len(),
{
    if p.len() > 0 {
        assert(spec_all_digits(p.drop_last())) by {
            assert(forall|i: int| 0 <= i < p.len() - 1 ==> p.drop_last()[i] == p[i]);
        }
        lemma_digits_bound(p.drop_last());
        assert('0' <= p.last() <= '9') by {
            assert(p[p.len() - 1] == p.last());
        }
    }
}

/// Find the first slash.
fn find_slash(s: &str) -> (r: usize)
    ensures
        r == spec_first_slash(s@),
        r <= s@.len(),
{
    let n = s.unicode_len();
    let mut i: usize = 0;
    proof {
        assert(s@.skip(0) =~= s@);
    }
    while i < n
        invariant
            n == s@.len(),
            i <= n,
            spec_first_slash(s@) == i + spec_first_slash(s@.skip(i as int)),
        decreases n - i,
    {
        proof {
            let rest = s@.skip(i as int);
            assert(rest.first() == s@[i as int]);
            assert(rest.drop_first() =~= s@.skip(i + 1));
        }
        if s.get_char(i) == '/' {
            proof {
                assert(spec_first_slash(s@.skip(i as int)) == 0);
            }
            return i;
        }
        i += 1;
    }
    proof {
        assert(s@.skip(n as int) =~= Seq::<char>::empty());
    }
    n
}

/// Whether the text holds a colon.
fn has_colon(s: &str) -> (r: bool)
    ensures
        r == spec_has_colon(s@),
{
    let n = s.unicode_len();
    let mut i: usize = 0;
    while i < n
        invariant
            n == s@.len(),
            i <= n,
            forall|j: int| 0 <= j < i ==> s@[j] != ':',
        decreases n - i,
    {
        if s.get_char(i) == ':' {
            proof {
                assert(s@[i as int] == ':');
            }
            return true;
        }
        i += 1;
    }
    false
}

/// Parse a one-to-three-digit decimal number of at most 255.
fn parse_octet(s: &str) -> (r: Option<u8>)
    ensures
        r == spec_octet(s@),
{
    let n = s.unicode_len();
    if n < 1 || n > 3 {
        return None;
    }
    let mut val: u32 = 0;
    let mut i: usize = 0;
    while i < n
        invariant
            n == s@.len(),
            1 <= n <= 3,
            i <= n,
            spec_all_digits(s@.subrange(0, i as int)),
            val == spec_digits_val(s@.subrange(0, i as int)),
        decreases n - i,
    {
        let c = s.get_char(i);
        if c < '0' || c > '9' {
            proof {
                assert(s@[i as int] == c);
                assert(!spec_all_digits(s@));
            }
            return None;
        }
        proof {
            lemma_digits_bound(s@.subrange(0, i as int));
            let next = s@.subrange(0, i + 1);
            assert(next.drop_last() =~= s@.subrange(0, i as int));
            assert(next.last() == c);
        }
        val = val * 10 + (c as u32 - 48);
        i += 1;
    }
    proof {
        lemma_digits_bound(s@.subrange(0, n as int));
    }
    proof {
        assert(s@.subrange(0, n as int) =~= s@);
    }
    if val > 255 {
        return None;
    }
    Some(val as u8)
}

/// Parse a dotted-quad IPv4 address.
pub fn parse_ipv4(s: &str) -> (r: Option<u32>)
    ensures
        r == spec_parse_ipv4(s@),
{
    let parts = split_dot(s);
    if parts.len() != 4 {
        return None;
    }
    let a = parse_octet(parts[0].as_str());
    let b = parse_octet(parts[1].as_str());
    let c = parse_octet(parts[2].as_str());
    let d = parse_octet(parts[3].as_str());
    match (a, b, c, d) {
        (Some(a), Some(b), Some(c), Some(d)) => Some(crate::net::ipv4_from_octets(a, b, c, d)),
        _ => None,
    }
}

/// Split a text on dots.
fn split_dot(s: &str) -> (r: Vec<String>)
    ensures
        r@.map_values(|p: String| p@) == spec_split_dot(s@),
        r@.len() > 0,
{
    let n = s.unicode_len();
    let mut parts: Vec<String> = Vec::new();
    let mut seg_start: usize = 0;
    let mut i: usize = 0;
    proof {
        assert(parts@.map_values(|p: String| p@) =~= spec_split_dot(s@.subrange(0, 0)).drop_last());
        assert(s@.subrange(0, 0) =~= spec_split_dot(s@.subrange(0, 0)).last());
    }
    while i < n
        invariant
            n == s@.len(),
            seg_start <= i <= n,
            parts@.map_values(|p: String| p@) == spec_split_dot(s@.subrange(0, i as int)).drop_last(),
            s@.subrange(seg_start as int, i as int) == spec_split_dot(
                s@.subrange(0, i as int),
            ).last(),
            spec_split_dot(s@.subrange(0, i as int)).len() > 0,
        decreases n - i,
    {
        let ghost prefix = s@.subrange(0, i as int);
        let ghost prev_parts = parts@.map_values(|p: String| p@);
        let c = s.get_char(i);
        proof {
            let next = s@.subrange(0, i + 1);
            assert(next.drop_last() =~= prefix);
            assert(next.last() == c);
        }
        if c == '.' {
            let seg = s.substring_char(seg_start, i).to_owned();
            parts.push(seg);
            proof {
                let next = s@.subrange(0, i + 1);
                let sp = spec_split_dot(prefix);
                assert(spec_split_dot(next) =~= sp + seq![Seq::<char>::empty()]);
                assert(parts@.map_values(|p: String| p@) =~= prev_parts.push(sp.last()));
                assert(prev_parts.push(sp.last()) =~= sp.drop_last().push(sp.last()));
                assert(sp.drop_last().push(sp.last()) =~= sp);
                assert(spec_split_dot(next).drop_last() =~= sp);
                assert(s@.subrange(i + 1, i + 1) =~= Seq::<char>::empty());
            }
            seg_start = i + 1;
        } else {
            proof {
                let next = s@.subrange(0, i + 1);
                let sp = spec_split_dot(prefix);
                assert(spec_split_dot(next) =~= sp.drop_last().push(sp.last().push(c)));
                assert(spec_split_dot(next).drop_last() =~= sp.drop_last());
                assert(s@.subrange(seg_start as int, i + 1) =~= s@.subrange(
                    seg_start as int,
                    i as int,
                ).push(c));
            }
        }
        i += 1;
    }
    let seg = s.substring_char(seg_start, n).to_owned();
    parts.push(seg);
    proof {
        assert(s@.subrange(0, n as int) =~= s@);
        let sp = spec_split_dot(s@);
        assert(parts@.map_values(|p: String| p@) =~= sp.drop_last().push(sp.last()));
        assert(sp.drop_last().push(sp.last()) =~= sp);
    }
    parts
}

/// Parse a CIDR text like `149.154.160.0/20`, or a bare address that
/// defaults to its family's host-route prefix.
pub fn parse_cidr(cidr: &str) -> (r: Result<CidrTarget, LeshyError>)
    ensures
        r is Ok <==> spec_cidr_ok(cidr@),
        r is Ok ==> ({
            let fs = spec_first_slash(cidr@);
            let addr = cidr@.subrange(0, fs);
            match r.unwrap() {
                CidrTarget::V4 { ip, prefix_len } => !spec_has_colon(addr) && Some(ip)
                    == spec_parse_ipv4(addr) && prefix_len == spec_cidr_prefix(cidr@) && prefix_len
                    <= 32,
                CidrTarget::V6 { addr_text, prefix_len } => spec_has_colon(addr) && ipv6_text_ok(
                    addr,
                ) && addr_text@ == addr && prefix_len == spec_cidr_prefix(cidr@) && prefix_len
                    <= 128,
            }
        }),
        r is Err ==> r->Err_0 is Parse,
{
    let n = cidr.unicode_len();
    let fs = find_slash(cidr);
    let addr = cidr.substring_char(0, fs);
    proof {
        assert(addr@ == cidr@.subrange(0, fs as int));
    }
    let v6 = has_colon(addr);
    let prefix: u8;
    if fs == n {
        prefix = if v6 {
            128
        } else {
            32
        };
    } else {
        let ptext = cidr.substring_char(fs + 1, n);
        proof {
            assert(ptext@ == cidr@.subrange(fs + 1, n as int));
        }
        match parse_octet(ptext) {
            Some(p) => {
                let maxp: u8 = if v6 {
                    128
                } else {
                    32
                };
                if p > maxp {
                    return Err(LeshyError::Parse("prefix length out of range".to_owned()));
                }
                prefix = p;
            },
            None => {
                return Err(LeshyError::Parse("invalid prefix length".to_owned()));
            },
        }
    }
    if v6 {
        if !parse_ipv6_ok(addr) {
            return Err(LeshyError::Parse("invalid address".to_owned()));
        }
        Ok(CidrTarget::V6 { addr_text: addr.to_owned(), prefix_len: prefix })
    } else {
        match parse_ipv4(addr) {
            Some(ip) => Ok(CidrTarget::V4 { ip, prefix_len: prefix }),
            None => Err(LeshyError::Parse("invalid address".to_owned())),
        }
    }
}

/// `needle` occurs as a contiguous run inside `hay`.
pub open spec fn spec_contains_sub(hay: Seq<char>, needle: Seq<char>) -> bool {
    exists|i: int|
        0 <= i <= hay.len() - needle.len() && #[trigger] hay.subrange(i, i + needle.len())
            == needle
}

/// Whether a text holds a contiguous occurrence of another.
fn str_contains_sub(hay: &str, needle: &str) -> (r: bool)
    ensures
        r == spec_contains_sub(hay@, needle@),
{
    let hn = hay.unicode_len();
    let nn = needle.unicode_len();
    if nn > hn {
        return false;
    }
    let mut i: usize = 0;
    while i <= hn - nn
        invariant
            hn == hay@.len(),
            nn == needle@.len(),
            nn <= hn,
            i <= hn - nn + 1,
            forall|j: int|
                0 <= j < i ==> #[trigger] hay@.subrange(j, j + nn as int) != needle@,
        decreases hn - nn - i + 1,
    {
        let mut k: usize = 0;
        let mut same: bool = true;
        while k < nn && same
            invariant
                hn == hay@.len(),
                nn == needle@.len(),
                i + nn <= hn,
                k <= nn,
                same ==> forall|m: int| 0 <= m < k ==> hay@[i + m] == needle@[m],
                !same ==> k < nn && hay@[i + k] != needle@[k as int],
            decreases nn - k + (if same {
                1int
            } else {
                0int
            }),
        {
            if hay.get_char(i + k) != needle.get_char(k) {
                same = false;
            } else {
                k += 1;
            }
        }
        if same {
            proof {
                assert(hay@.subrange(i as int, i + nn as int) =~= needle@);
            }
            return true;
        }
        proof {
            let sub = hay@.subrange(i as int, i + nn as int);
            assert(sub[k as int] == hay@[i + k]);
            assert(sub != needle@);
        }
        i += 1;
    }
    proof {
        if spec_contains_sub(hay@, needle@) {
            let j = choose|j: int|
                0 <= j <= hay@.len() - needle@.len() && #[trigger] hay@.subrange(
                    j,
                    j + needle@.len(),
                ) == needle@;
        }
    }
    false
}

/// Whether a route command's outcome counts as success: a zero exit, or a
/// tolerated kernel complaint in its error text — a route already present
/// on add, already absent on remove is no failure.
pub fn install_outcome_ok(status_success: bool, stderr: &str, tolerated: &str) -> (r: bool)
    ensures
        r == (status_success || spec_contains_sub(stderr@, tolerated@)),
{
    if status_success {
        true
    } else {
        str_contains_sub(stderr, tolerated)
    }
}

/// The addresses recorded for one zone.
pub struct ZoneRoutes {
    pub zone_name: String,
    pub ips: Vec<HostAddr>,
}

/// Owns the aggregator and the per-zone record of installed addresses.
/// The caller executes the returned route actions, in order, and records
/// an address only after the kernel accepted it.
pub struct RouteManager {
    pub aggregator: RouteAggregator,
    pub zone_routes: Vec<ZoneRoutes>,
}

impl RouteManager {
    /// Zone records carry unique names and unique addresses.
    pub open spec fn wf(self) -> bool {
        &&& self.aggregator.wf()
        &&& (forall|i: int, j: int|
            0 <= i < self.zone_routes@.len() && 0 <= j < self.zone_routes@.len() && i != j ==> (
            #[trigger] self.zone_routes@[i]).zone_name@ != (
            #[trigger] self.zone_routes@[j]).zone_name@)
        &&& (forall|i: int, a: int, b: int|
            0 <= i < self.zone_routes@.len() && 0 <= a < self.zone_routes@[i].ips@.len() && 0 <= b
                < self.zone_routes@[i].ips@.len() && a != b ==> (#[trigger] self.zone_routes@[
            i
            ].ips@[a]) != (#[trigger] self.zone_routes@[i].ips@[b]))
    }

    /// The number of addresses recorded for a zone.
    pub open spec fn spec_zone_route_count(self, zone: Seq<char>) -> int {
        if exists|i: int|
            0 <= i < self.zone_routes@.len() && (#[trigger] self.zone_routes@[i]).zone_name@
                == zone {
            let i = choose|i: int|
                0 <= i < self.zone_routes@.len() && (#[trigger] self.zone_routes@[i]).zone_name@
                    == zone;
            self.zone_routes@[i].ips@.len() as int
        } else {
            0
        }
    }

    /// An address is recorded for a zone.
    pub open spec fn spec_zone_has_ip(self, zone: Seq<char>, ip: HostAddr) -> bool {
        exists|i: int, a: int|
            #![trigger self.zone_routes@[i].ips@[a]]
            0 <= i < self.zone_routes@.len() && self.zone_routes@[i].zone_name@ == zone && 0 <= a
                < self.zone_routes@[i].ips@.len() && self.zone_routes@[i].ips@[a] == ip
    }

    pub fn new(aggregation_prefix: Option<u8>) -> (r: Self)
        ensures
            r.wf(),
            r.aggregator.agg_prefix() == (match aggregation_prefix {
                Some(p) => p,
                None => 32,
            }),
            r.aggregator.routes_model().len() == 0,
            r.zone_routes@.len() == 0,
    {
        RouteManager { aggregator: RouteAggregator::new(aggregation_prefix), zone_routes: Vec::new() }
    }

    /// Feed an IPv4 address through the aggregator and return the kernel
    /// actions the caller must execute, in order. The returned list is
    /// exactly what the aggregator emitted: the state change and the
    /// actions satisfy the aggregator's full contract.
    pub fn add_route_v4(&mut self, ip: u32, zone: &ZoneConfig) -> (r: Vec<RouteAction>)
        requires
            old(self).wf(),
        ensures
            final(self).wf(),
            final(self).zone_routes@ == old(self).zone_routes@,
            process_ip_post(
                old(self).aggregator,
                final(self).aggregator,
                acts_model(r@),
                ip,
                zone.name@,
                zone.route_type,
                zone.route_target@,
            ),
    {
        let r = self.aggregator.process_ip(
            ip,
            zone.name.as_str(),
            zone.route_type,
            zone.route_target.as_str(),
        );
        proof {
            if old(self).aggregator.settled(ip, zone.name@) {
                assert(acts_model(r@) =~= Seq::<crate::aggregator::ActionModel>::empty());
            }
            assert(process_ip_post(
                old(self).aggregator,
                self.aggregator,
                acts_model(r@),
                ip,
                zone.name@,
                zone.route_type,
                zone.route_target@,
            ));
        }
        r
    }

    /// Record an address for a zone after its route was accepted.
    pub fn record_route(&mut self, zone_name: &str, ip: HostAddr)
        requires
            old(self).wf(),
        ensures
            final(self).wf(),
            final(self).aggregator == old(self).aggregator,
            final(self).spec_zone_has_ip(zone_name@, ip),
    {
        let n = self.zone_routes.len();
        let mut i: usize = 0;
        while i < n
            invariant
                old(self).wf(),
                self == old(self),
                n == self.zone_routes@.len(),
                i <= n,
                forall|j: int| 0 <= j < i ==> (#[trigger] self.zone_routes@[j]).zone_name@ != zone_name@,
            decreases n - i,
        {
            if str_eq(self.zone_routes[i].zone_name.as_str(), zone_name) {
                let m = self.zone_routes[i].ips.len();
                let mut a: usize = 0;
                while a < m
                    invariant
                        old(self).wf(),
                        self == old(self),
                        0 <= i < self.zone_routes@.len(),
                        self.zone_routes@[i as int].zone_name@ == zone_name@,
                        m == self.zone_routes@[i as int].ips@.len(),
                        a <= m,
                        forall|b: int|
                            0 <= b < a ==> (#[trigger] self.zone_routes@[i as int].ips@[b]) != ip,
                    decreases m - a,
                {
                    if self.zone_routes[i].ips[a] == ip {
                        proof {
                            assert(self.zone_routes@[i as int].ips@[a as int] == ip);
                        }
                        return ;
                    }
                    a += 1;
                }
                let ghost pre = *self;
                let mut entry = self.zone_routes.remove(i);
                entry.ips.push(ip);
                self.zone_routes.insert(i, entry);
                proof {
                    assert(self.zone_routes@.len() == pre.zone_routes@.len());
                    assert forall|j: int| 0 <= j < self.zone_routes@.len() && j != i implies (
                    #[trigger] self.zone_routes@[j]) == pre.zone_routes@[j] by {
                        let mid = pre.zone_routes@.remove(i as int);
                        if j < i {
                            assert(self.zone_routes@[j] == mid[j]);
                            assert(mid[j] == pre.zone_routes@.subrange(0, i as int)[j]);
                        } else {
                            assert(self.zone_routes@[j] == mid[j - 1]);
                            assert(mid[j - 1] == pre.zone_routes@.subrange(
                                i + 1,
                                pre.zone_routes@.len() as int,
                            )[j - 1 - i]);
                        }
                    }
                    assert(self.zone_routes@[i as int].zone_name@ == zone_name@);
                    assert(self.zone_routes@[i as int].ips@ == pre.zone_routes@[i as int].ips@.push(
                        ip,
                    ));
                    let last = self.zone_routes@[i as int].ips@.len() - 1;
                    assert(self.zone_routes@[i as int].ips@[last] == ip);
                }
                return ;
            }
            i += 1;
        }
        let mut ips: Vec<HostAddr> = Vec::new();
        ips.push(ip);
        self.zone_routes.push(ZoneRoutes { zone_name: zone_name.to_owned(), ips });
        proof {
            let last = self.zone_routes@.len() - 1;
            assert(self.zone_routes@[last].zone_name@ == zone_name@);
            assert(self.zone_routes@[last].ips@[0] == ip);
        }
    }

    /// Parse a static route, register its IPv4 address with the aggregator
    /// so future aggregates carve around it, and return what to install.
    pub fn add_static_route(&mut self, cidr: &str, zone: &ZoneConfig) -> (r: Result<
        CidrTarget,
        LeshyError,
    >)
        requires
            old(self).wf(),
        ensures
            final(self).wf(),
            final(self).zone_routes@ == old(self).zone_routes@,
            r is Ok <==> spec_cidr_ok(cidr@),
            r is Err ==> r->Err_0 is Parse && *final(self) == *old(self),
            r is Ok ==> match r.unwrap() {
                CidrTarget::V4 { ip, prefix_len } => final(self).aggregator.known_zone_is(
                    ip,
                    zone.name@,
                ) && final(self).aggregator.routes_model() == old(
                    self,
                ).aggregator.routes_model() && prefix_len <= 32,
                CidrTarget::V6 { addr_text, prefix_len } => *final(self) == *old(self)
                    && prefix_len <= 128,
            },
    {
        let parsed = parse_cidr(cidr)?;
        match parsed {
            CidrTarget::V4 { ip, prefix_len } => {
                self.aggregator.register_static_ip(ip, zone.name.as_str());
                Ok(CidrTarget::V4 { ip, prefix_len })
            },
            CidrTarget::V6 { addr_text, prefix_len } => {
                Ok(CidrTarget::V6 { addr_text, prefix_len })
            },
        }
    }

    /// Remove a zone's bookkeeping: its recorded addresses and every
    /// aggregator entry it owns. Kernel routes are not touched.
    pub fn cleanup_zone(&mut self, zone_name: &str)
        requires
            old(self).wf(),
        ensures
            final(self).wf(),
            !final(self).aggregator.installed_for_zone(zone_name@),
            !final(self).aggregator.known_for_zone(zone_name@),
            forall|i: int|
                0 <= i < final(self).zone_routes@.len() ==> (
                #[trigger] final(self).zone_routes@[i]).zone_name@ != zone_name@,
            final(self).spec_zone_route_count(zone_name@) == 0,
    {
        let n = self.zone_routes.len();
        let mut i: usize = 0;
        let mut found: Option<usize> = None;
        while i < n
            invariant
                self == old(self),
                old(self).wf(),
                n == self.zone_routes@.len(),
                i <= n,
                match found {
                    Some(k) => k < i <= n && self.zone_routes@[k as int].zone_name@ == zone_name@,
                    None => forall|j: int|
                        0 <= j < i ==> (#[trigger] self.zone_routes@[j]).zone_name@ != zone_name@,
                },
            decreases n - i,
        {
            if found.is_none() && str_eq(self.zone_routes[i].zone_name.as_str(), zone_name) {
                proof {
                    assert(self.zone_routes@[i as int].zone_name@ == zone_name@);
                }
                found = Some(i);
            }
            i += 1;
        }
        let ghost pre = *self;
        match found {
            Some(k) => {
                self.zone_routes.remove(k);
                proof {
                    assert forall|j: int| 0 <= j < self.zone_routes@.len() implies (
                    #[trigger] self.zone_routes@[j]) == (if j < k {
                        pre.zone_routes@[j]
                    } else {
                        pre.zone_routes@[j + 1]
                    }) by {
                        if j < k {
                            assert(self.zone_routes@[j] == pre.zone_routes@.subrange(
                                0,
                                k as int,
                            )[j]);
                        } else {
                            assert(self.zone_routes@[j] == pre.zone_routes@.subrange(
                                k + 1,
                                pre.zone_routes@.len() as int,
                            )[j - k]);
                        }
                    }
                    assert forall|j: int| 0 <= j < self.zone_routes@.len() implies (
                    #[trigger] self.zone_routes@[j]).zone_name@ != zone_name@ by {
                        let j0 = if j < k {
                            j
                        } else {
                            j + 1
                        };
                        assert(self.zone_routes@[j] == pre.zone_routes@[j0]);
                        if j0 != k {
                            assert(pre.zone_routes@[j0].zone_name@
                                != pre.zone_routes@[k as int].zone_name@);
                        }
                    }
                }
            },
            None => {
            },
        }
        self.aggregator.cleanup_zone(zone_name);
    }

    /// How many addresses are recorded for a zone.
    pub fn get_zone_route_count(&self, zone_name: &str) -> (r: usize)
        requires
            self.wf(),
        ensures
            r == self.spec_zone_route_count(zone_name@),
    {
        let n = self.zone_routes.len();
        let mut i: usize = 0;
        while i < n
            invariant
                self.wf(),
                n == self.zone_routes@.len(),
                i <= n,
                forall|j: int| 0 <= j < i ==> (#[trigger] self.zone_routes@[j]).zone_name@ != zone_name@,
            decreases n - i,
        {
            if str_eq(self.zone_routes[i].zone_name.as_str(), zone_name) {
                proof {
                    assert(self.zone_routes@[i as int].zone_name@ == zone_name@);
                    let w = choose|w: int|
                        0 <= w < self.zone_routes@.len() && (
                        #[trigger] self.zone_routes@[w]).zone_name@ == zone_name@;
                    assert(w == i as int);
                }
                return self.zone_routes[i].ips.len();
            }
            i += 1;
        }
        proof {
            if exists|w: int|
                0 <= w < self.zone_routes@.len() && (#[trigger] self.zone_routes@[w]).zone_name@
                    == zone_name@ {
                let w = choose|w: int|
                    0 <= w < self.zone_routes@.len() && (#[trigger] self.zone_routes@[w]).zone_name@
                        == zone_name@;
            }
        }
        0
    }
}

} // verus!
