//! The zone matcher: an ordered list of compiled zones. A query name is
//! normalized (one trailing dot stripped, case folded), then each zone is
//! tried in order; an inclusive zone selects when a rule matches, an
//! exclusive zone selects when none does.

use vstd::prelude::*;
use vstd::string::StrSliceExecFns;
use vstd::string::StringExecFns;

use crate::config::{clone_zone, zone_eqv, ZoneConfig, ZoneMode};
use crate::error::LeshyError;
use crate::pattern::{
    compile_pattern, regex_compiles, regex_match, spec_pattern_regex, CompiledPattern,
};
use crate::text::{lower_of, lowercase, str_eq};

verus! {

/// A query name with one trailing dot removed.
pub open spec fn spec_strip_dot(q: Seq<char>) -> Seq<char> {
    if q.len() > 0 && q.last() == '.' {
        q.drop_last()
    } else {
        q
    }
}

/// The normalized form a query name is matched in.
pub open spec fn spec_normalize(q: Seq<char>) -> Seq<char> {
    lower_of(spec_strip_dot(q))
}

/// Matches a configured domain and all of its subdomains.
pub struct DomainMatcher {
    pub domain: String,
}

/// A name matches a domain exactly or as a dot-separated subdomain.
pub open spec fn spec_domain_matches(domain: Seq<char>, q: Seq<char>) -> bool {
    q == domain || (q.len() > domain.len() && q.subrange(q.len() - domain.len(), q.len() as int)
        == domain && q[q.len() - domain.len() - 1] == '.')
}

impl DomainMatcher {
    pub fn new(domain: &str) -> (r: Result<DomainMatcher, LeshyError>)
        ensures
            r is Ok,
            r.unwrap().domain@ == domain@,
    {
        Ok(DomainMatcher { domain: domain.to_owned() })
    }

    /// Whether the name is the domain or one of its subdomains.
    pub fn matches(&self, qname: &str) -> (r: bool)
        ensures
            r == spec_domain_matches(self.domain@, qname@),
    {
        if str_eq(qname, self.domain.as_str()) {
            return true;
        }
        let qn = qname.unicode_len();
        let dn = self.domain.as_str().unicode_len();
        if qn <= dn {
            return false;
        }
        if qname.get_char(qn - dn - 1) != '.' {
            return false;
        }
        let tail = qname.substring_char(qn - dn, qn);
        let r = str_eq(tail, self.domain.as_str());
        proof {
            assert(tail@ == qname@.subrange(qn - dn, qn as int));
        }
        r
    }
}

/// One zone with its compiled rules.
pub struct ZoneEntry {
    pub config: ZoneConfig,
    pub domain_matchers: Vec<DomainMatcher>,
    pub patterns: Vec<CompiledPattern>,
}

/// The rules of a zone as the matcher sees them: its mode, the case-folded
/// domains, and the regex texts of its patterns.
pub struct ZoneRuleModel {
    pub mode: ZoneMode,
    pub domains: Seq<Seq<char>>,
    pub patterns: Seq<Seq<char>>,
}

/// A normalized name matches some rule of the zone.
pub open spec fn spec_rules_match(m: ZoneRuleModel, q: Seq<char>) -> bool {
    (exists|j: int| 0 <= j < m.domains.len() && spec_domain_matches(#[trigger] m.domains[j], q))
        || (exists|j: int| 0 <= j < m.patterns.len() && regex_match(#[trigger] m.patterns[j], q))
}

/// The zone selects the name: an inclusive zone on a rule match, an
/// exclusive zone on the absence of one.
pub open spec fn spec_zone_selects(m: ZoneRuleModel, q: Seq<char>) -> bool {
    match m.mode {
        ZoneMode::Inclusive => spec_rules_match(m, q),
        ZoneMode::Exclusive => !spec_rules_match(m, q),
    }
}

/// The first zone that selects the name, walking the list in order.
pub open spec fn spec_find_zone(ms: Seq<ZoneRuleModel>, q: Seq<char>) -> Option<int>
    decreases ms.len(),
{
    if ms.len() == 0 {
        None
    } else if spec_zone_selects(ms.first(), q) {
        Some(0int)
    } else {
        match spec_find_zone(ms.drop_first(), q) {
            Some(i) => Some(i + 1),
            None => None,
        }
    }
}

impl ZoneEntry {
    /// The rules this entry was compiled to.
    pub open spec fn model(self) -> ZoneRuleModel {
        ZoneRuleModel {
            mode: self.config.mode,
            domains: self.domain_matchers@.map_values(|d: DomainMatcher| d.domain@),
            patterns: self.patterns@.map_values(|p: CompiledPattern| p.src()),
        }
    }

    /// The entry's rules come from its zone configuration: domains are the
    /// configured ones case-folded, patterns their translated regexes.
    pub open spec fn wf(self) -> bool {
        &&& self.domain_matchers@.len() == self.config.domains@.len()
        &&& (forall|j: int|
            0 <= j < self.config.domains@.len() ==> (#[trigger] self.domain_matchers@[j]).domain@
                == lower_of(self.config.domains@[j]@))
        &&& self.patterns@.len() == self.config.patterns@.len()
        &&& (forall|j: int|
            0 <= j < self.config.patterns@.len() ==> (#[trigger] self.patterns@[j]).src()
                == spec_pattern_regex(self.config.patterns@[j]@))
    }
}

/// Constructed once from an ordered zone list; replaced whole on reload.
pub struct ZoneMatcher {
    pub zones: Vec<ZoneEntry>,
}

impl ZoneMatcher {
    /// The compiled rules, in zone order.
    pub open spec fn models(self) -> Seq<ZoneRuleModel> {
        self.zones@.map_values(|e: ZoneEntry| e.model())
    }

    pub open spec fn wf(self) -> bool {
        forall|i: int| 0 <= i < self.zones@.len() ==> (#[trigger] self.zones@[i]).wf()
    }

    /// Compile an ordered zone list. Fails, naming the zone, exactly when
    /// some pattern's translated regex is rejected.
    pub fn new(zones: Vec<ZoneConfig>) -> (r: Result<ZoneMatcher, LeshyError>)
        ensures
            r is Ok <==> (forall|i: int, j: int|
                0 <= i < zones@.len() && 0 <= j < zones@[i].patterns@.len() ==> regex_compiles(
                    spec_pattern_regex((#[trigger] zones@[i].patterns@[j])@),
                )),
            r is Ok ==> {
                let m = r.unwrap();
                &&& m.wf()
                &&& m.zones@.len() == zones@.len()
                &&& (forall|i: int|
                    0 <= i < zones@.len() ==> zone_eqv((#[trigger] m.zones@[i]).config, zones@[i]))
            },
            r is Err ==> r->Err_0 is Config,
    {
        let mut entries: Vec<ZoneEntry> = Vec::new();
        let n = zones.len();
        let mut i: usize = 0;
        let ghost zs = zones@;
        while i < n
            invariant
                n == zones@.len(),
                zs == zones@,
                i <= n,
                entries@.len() == i,
                forall|k: int| 0 <= k < i ==> (#[trigger] entries@[k]).wf(),
                forall|k: int| 0 <= k < i ==> zone_eqv((#[trigger] entries@[k]).config, zones@[k]),
                forall|k: int, j: int|
                    0 <= k < i && 0 <= j < zones@[k].patterns@.len() ==> regex_compiles(
                        spec_pattern_regex((#[trigger] zones@[k].patterns@[j])@),
                    ),
            decreases n - i,
        {
            let zone = clone_zone(&zones[i]);
            proof {
                let dv = zone.domains@.map_values(|s: String| s@);
                let ev = zs[i as int].domains@.map_values(|s: String| s@);
                assert(dv == ev);
                assert(dv.len() == zone.domains@.len() && ev.len() == zs[i as int].domains@.len());
            }
            let mut domain_matchers: Vec<DomainMatcher> = Vec::new();
            let dn = zone.domains.len();
            let mut j: usize = 0;
            while j < dn
                invariant
                    dn == zone.domains@.len(),
                    j <= dn,
                    domain_matchers@.len() == j,
                    forall|k: int|
                        0 <= k < j ==> (#[trigger] domain_matchers@[k]).domain@ == lower_of(
                            zone.domains@[k]@,
                        ),
                decreases dn - j,
            {
                let lowered = lowercase(zone.domains[j].as_str());
                domain_matchers.push(DomainMatcher { domain: lowered });
                j += 1;
            }
            let mut patterns: Vec<CompiledPattern> = Vec::new();
            let pn = zone.patterns.len();
            proof {
                let pv = zone.patterns@.map_values(|s: String| s@);
                let qv = zs[i as int].patterns@.map_values(|s: String| s@);
                assert(pv == qv);
                assert(pv.len() == zone.patterns@.len() && qv.len() == zs[i as int].patterns@.len());
                assert forall|k: int|
                    0 <= k < pn implies (#[trigger] zone.patterns@[k])@ == zs[i as int].patterns@[
                    k
                ]@ by {
                    assert(pv[k] == zone.patterns@[k]@);
                    assert(qv[k] == zs[i as int].patterns@[k]@);
                }
            }
            let mut j2: usize = 0;
            while j2 < pn
                invariant
                    zs == zones@,
                    0 <= i < zs.len(),
                    pn == zone.patterns@.len(),
                    zone.name@ == zs[i as int].name@,
                    forall|k: int|
                        0 <= k < pn ==> (#[trigger] zone.patterns@[k])@ == zs[i as int].patterns@[
                            k
                        ]@,
                    pn == zs[i as int].patterns@.len(),
                    j2 <= pn,
                    patterns@.len() == j2,
                    forall|k: int|
                        0 <= k < j2 ==> (#[trigger] patterns@[k]).src() == spec_pattern_regex(
                            zone.patterns@[k]@,
                        ),
                    forall|k: int|
                        0 <= k < j2 ==> regex_compiles(
                            spec_pattern_regex((#[trigger] zs[i as int].patterns@[k])@),
                        ),
                decreases pn - j2,
            {
                match compile_pattern(zone.patterns[j2].as_str()) {
                    Some(p) => {
                        patterns.push(p);
                    },
                    None => {
                        let mut msg = "invalid pattern in zone ".to_owned();
                        msg.append(zone.name.as_str());
                        proof {
                            assert(!regex_compiles(
                                spec_pattern_regex(zs[i as int].patterns@[j2 as int]@),
                            ));
                        }
                        return Err(LeshyError::Config(msg));
                    },
                }
                j2 += 1;
            }
            proof {
                assert forall|k: int, j: int|
                    0 <= k < i + 1 && 0 <= j < zs[k].patterns@.len() implies regex_compiles(
                    spec_pattern_regex((#[trigger] zs[k].patterns@[j])@),
                ) by {
                    if k == i {
                        assert(regex_compiles(spec_pattern_regex(zs[i as int].patterns@[j]@)));
                    }
                }
            }
            entries.push(ZoneEntry { config: zone, domain_matchers, patterns });
            proof {
                let e = entries@.last();
                assert(e.wf()) by {
                    assert(forall|k: int|
                        0 <= k < e.config.domains@.len()
                            ==> (#[trigger] e.domain_matchers@[k]).domain@ == lower_of(
                            e.config.domains@[k]@,
                        ));
                }
                assert(zone_eqv(entries@.last().config, zs[i as int]));
            }
            i += 1;
        }
        Ok(ZoneMatcher { zones: entries })
    }

    /// Find the first zone that selects the query name, after normalizing
    /// it. Returns the zone's configuration, or nothing when no zone
    /// selects and the default upstream should answer.
    pub fn find_zone(&self, qname: &str) -> (r: Option<&ZoneConfig>)
        requires
            self.wf(),
        ensures
            match spec_find_zone(self.models(), spec_normalize(qname@)) {
                Some(i) => r is Some && 0 <= i < self.zones@.len() && r.unwrap()
                    == &self.zones@[i].config,
                None => r is None,
            },
    {
        let stripped = strip_trailing_dot(qname);
        let q = lowercase(stripped);
        let n = self.zones.len();
        let mut i: usize = 0;
        proof {
            assert(self.models().skip(0) =~= self.models());
        }
        while i < n
            invariant
                self.wf(),
                n == self.zones@.len(),
                i <= n,
                q@ == spec_normalize(qname@),
                spec_find_zone(self.models(), q@) == (match spec_find_zone(
                    self.models().skip(i as int),
                    q@,
                ) {
                    Some(k) => Some(k + i),
                    None => None::<int>,
                }),
            decreases n - i,
        {
            let selected = zone_selects(&self.zones[i], q.as_str());
            proof {
                let rest = self.models().skip(i as int);
                assert(rest.first() == self.models()[i as int]);
                assert(rest.drop_first() =~= self.models().skip(i + 1));
            }
            if selected {
                proof {
                    assert(spec_find_zone(self.models().skip(i as int), q@) == Some(0int));
                }
                return Some(&self.zones[i].config);
            }
            i += 1;
        }
        proof {
            assert(self.models().skip(n as int) =~= Seq::<ZoneRuleModel>::empty());
        }
        None
    }
}

/// Whether a zone selects a normalized name.
fn zone_selects(entry: &ZoneEntry, q: &str) -> (r: bool)
    requires
        entry.wf(),
    ensures
        r == spec_zone_selects(entry.model(), q@),
{
    let rules = zone_rules_match(entry, q);
    match entry.config.mode {
        ZoneMode::Inclusive => rules,
        ZoneMode::Exclusive => !rules,
    }
}

/// Whether any domain or pattern rule of a zone matches a normalized name.
fn zone_rules_match(entry: &ZoneEntry, q: &str) -> (r: bool)
    requires
        entry.wf(),
    ensures
        r == spec_rules_match(entry.model(), q@),
{
    let dn = entry.domain_matchers.len();
    let mut i: usize = 0;
    while i < dn
        invariant
            entry.wf(),
            dn == entry.domain_matchers@.len(),
            i <= dn,
            forall|j: int|
                0 <= j < i ==> !spec_domain_matches(#[trigger] entry.model().domains[j], q@),
        decreases dn - i,
    {
        if entry.domain_matchers[i].matches(q) {
            proof {
                assert(spec_domain_matches(entry.model().domains[i as int], q@));
            }
            return true;
        }
        i += 1;
    }
    let pn = entry.patterns.len();
    let mut k: usize = 0;
    while k < pn
        invariant
            entry.wf(),
            pn == entry.patterns@.len(),
            k <= pn,
            forall|j: int|
                0 <= j < entry.model().domains.len() ==> !spec_domain_matches(
                    #[trigger] entry.model().domains[j],
                    q@,
                ),
            forall|j: int| 0 <= j < k ==> !regex_match(#[trigger] entry.model().patterns[j], q@),
        decreases pn - k,
    {
        if entry.patterns[k].matches(q) {
            proof {
                assert(regex_match(entry.model().patterns[k as int], q@));
            }
            return true;
        }
        k += 1;
    }
    false
}

/// Remove one trailing dot from a query name.
fn strip_trailing_dot(q: &str) -> (r: &str)
    ensures
        r@ == spec_strip_dot(q@),
{
    let n = q.unicode_len();
    if n > 0 && q.get_char(n - 1) == '.' {
        let r = q.substring_char(0, n - 1);
        proof {
            assert(r@ =~= q@.drop_last());
        }
        r
    } else {
        q
    }
}

/// A zone list only ever grows at the end: a name that an earlier list
/// already resolved keeps resolving to the same zone after new zones are
/// appended.
pub proof fn lemma_find_zone_prefix_stable(ms1: Seq<ZoneRuleModel>, ms2: Seq<ZoneRuleModel>, q: Seq<
    char,
>)
    requires
        ms1.is_prefix_of(ms2),
        spec_find_zone(ms1, q) is Some,
    ensures
        spec_find_zone(ms2, q) == spec_find_zone(ms1, q),
    decreases ms1.len(),
{
    assert(ms1.len() > 0);
    assert(ms2.first() == ms1.first());
    if spec_zone_selects(ms1.first(), q) {
    } else {
        assert(ms1.drop_first().is_prefix_of(ms2.drop_first())) by {
            assert(ms1.drop_first() =~= ms2.drop_first().subrange(0, ms1.len() - 1));
        }
        lemma_find_zone_prefix_stable(ms1.drop_first(), ms2.drop_first(), q);
    }
}

} // verus!
