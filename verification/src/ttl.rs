//! The cache TTL cascade: per-server override, then per-zone override,
//! then the global default; negative TTL for NXDOMAIN or empty answers,
//! otherwise the minimum answer TTL clamped into the configured band.

use vstd::prelude::*;

use crate::config::{DnsServerConfig, ServerConfig, ZoneConfig};

verus! {

/// The first override that is set, or the global default.
pub open spec fn spec_cascade(server: Option<u64>, zone: Option<u64>, global: u64) -> u64 {
    match server {
        Some(v) => v,
        None => match zone {
            Some(v) => v,
            None => global,
        },
    }
}

/// The minimum of a sequence of record TTLs.
pub open spec fn spec_min_ttl(ttls: Seq<u32>) -> u32
    recommends
        ttls.len() > 0,
    decreases ttls.len(),
{
    if ttls.len() <= 1 {
        ttls[0]
    } else {
        let rest = spec_min_ttl(ttls.drop_first());
        if ttls[0] <= rest {
            ttls[0]
        } else {
            rest
        }
    }
}

/// A value clamped into `[lo, hi]`, the lower bound winning when the band
/// is empty.
pub open spec fn spec_clamp(v: u64, lo: u64, hi: u64) -> u64 {
    if v < lo {
        lo
    } else if v > hi {
        hi
    } else {
        v
    }
}

/// The effective cache TTL in seconds for a response.
pub open spec fn spec_effective_ttl(
    min_ttl: u64,
    max_ttl: u64,
    negative_ttl: u64,
    nxdomain: bool,
    answer_ttls: Seq<u32>,
) -> u64 {
    if nxdomain || answer_ttls.len() == 0 {
        negative_ttl
    } else {
        spec_clamp(spec_min_ttl(answer_ttls) as u64, min_ttl, max_ttl)
    }
}

/// Compute the cache TTL for a response using the server, zone, global
/// cascade. `nxdomain` says whether the response code was NXDOMAIN;
/// `answer_ttls` are the TTLs of its answer records.
pub fn resolve_cache_ttl(
    server_cfg: Option<&DnsServerConfig>,
    zone: Option<&ZoneConfig>,
    global: &ServerConfig,
    nxdomain: bool,
    answer_ttls: &Vec<u32>,
) -> (r: u64)
    ensures
        ({
            let smin = match server_cfg {
                Some(s) => s.cache_min_ttl,
                None => None,
            };
            let smax = match server_cfg {
                Some(s) => s.cache_max_ttl,
                None => None,
            };
            let sneg = match server_cfg {
                Some(s) => s.cache_negative_ttl,
                None => None,
            };
            let zmin = match zone {
                Some(z) => z.cache_min_ttl,
                None => None,
            };
            let zmax = match zone {
                Some(z) => z.cache_max_ttl,
                None => None,
            };
            let zneg = match zone {
                Some(z) => z.cache_negative_ttl,
                None => None,
            };
            r == spec_effective_ttl(
                spec_cascade(smin, zmin, global.cache_min_ttl),
                spec_cascade(smax, zmax, global.cache_max_ttl),
                spec_cascade(sneg, zneg, global.cache_negative_ttl),
                nxdomain,
                answer_ttls@,
            )
        }),
{
    let min_ttl = cascade(
        match server_cfg {
            Some(s) => s.cache_min_ttl,
            None => None,
        },
        match zone {
            Some(z) => z.cache_min_ttl,
            None => None,
        },
        global.cache_min_ttl,
    );
    let max_ttl = cascade(
        match server_cfg {
            Some(s) => s.cache_max_ttl,
            None => None,
        },
        match zone {
            Some(z) => z.cache_max_ttl,
            None => None,
        },
        global.cache_max_ttl,
    );
    let negative_ttl = cascade(
        match server_cfg {
            Some(s) => s.cache_negative_ttl,
            None => None,
        },
        match zone {
            Some(z) => z.cache_negative_ttl,
            None => None,
        },
        global.cache_negative_ttl,
    );

    if nxdomain || answer_ttls.len() == 0 {
        return negative_ttl;
    }
    let n = answer_ttls.len();
    let mut min_seen: u32 = answer_ttls[0];
    let mut i: usize = 1;
    while i < n
        invariant
            n == answer_ttls@.len(),
            1 <= i <= n,
            min_seen == spec_min_ttl(answer_ttls@.subrange(0, i as int)),
        decreases n - i,
    {
        proof {
            lemma_min_ttl_extend(answer_ttls@, i as int);
        }
        if answer_ttls[i] < min_seen {
            min_seen = answer_ttls[i];
        }
        i += 1;
    }
    proof {
        assert(answer_ttls@.subrange(0, n as int) =~= answer_ttls@);
    }
    let v = min_seen as u64;
    if v < min_ttl {
        min_ttl
    } else if v > max_ttl {
        max_ttl
    } else {
        v
    }
}

/// Resolve one cascade level.
fn cascade(server: Option<u64>, zone: Option<u64>, global: u64) -> (r: u64)
    ensures
        r == spec_cascade(server, zone, global),
{
    match server {
        Some(v) => v,
        None => match zone {
            Some(v) => v,
            None => global,
        },
    }
}

/// Extending the prefix by one element updates the running minimum.
proof fn lemma_min_ttl_extend(ttls: Seq<u32>, i: int)
    requires
        1 <= i < ttls.len(),
    ensures
        spec_min_ttl(ttls.subrange(0, i + 1)) == (if ttls[i] < spec_min_ttl(ttls.subrange(0, i)) {
            ttls[i]
        } else {
            spec_min_ttl(ttls.subrange(0, i))
        }),
    decreases i,
{
    let a = ttls.subrange(0, i + 1);
    let b = ttls.subrange(0, i);
    if i == 1 {
        assert(a.drop_first() =~= seq![ttls[1]]);
        assert(spec_min_ttl(a.drop_first()) == ttls[1]);
    } else {
        lemma_min_ttl_extend(ttls.subrange(1, ttls.len() as int), i - 1);
        assert(a.drop_first() =~= ttls.subrange(1, ttls.len() as int).subrange(0, i));
        assert(b.drop_first() =~= ttls.subrange(1, ttls.len() as int).subrange(0, i - 1));
    }
}

} // verus!
