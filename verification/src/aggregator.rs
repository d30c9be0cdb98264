//! The CIDR-aggregating route table: collapses host routes into wider
//! prefixes and carves sub-prefixes back out on cross-zone collisions,
//! emitting an ordered stream of kernel add/remove actions.

use vstd::prelude::*;

use crate::config::RouteType;
use crate::net::{
    ip_in_network, lemma_common_point_overlap, lemma_network_address_coarsen,
    lemma_network_address_full, lemma_network_address_idempotent, lemma_overlap_symmetric, lemma_split_network,
    lemma_subset_no_overlap, network_address, spec_aligned, spec_in_network,
    spec_keys_overlap, spec_network_address, split_network,
};
use crate::text::str_eq;

verus! {

/// Who claims an installed route.
#[derive(Debug)]
pub struct RouteOwner {
    pub zone_name: String,
    pub route_type: RouteType,
    pub route_target: String,
}

/// Describes a kernel route action the caller must execute.
#[derive(Debug, Clone, PartialEq, Eq)]
pub enum RouteAction {
    Add { network: u32, prefix_len: u8, route_type: RouteType, route_target: String },
    Remove { network: u32, prefix_len: u8 },
}

/// One route this process claims in the kernel.
#[derive(Debug)]
pub struct InstalledEntry {
    pub network: u32,
    pub prefix_len: u8,
    pub owner: RouteOwner,
}

/// One observed host address and the zone it resolved under.
#[derive(Debug)]
pub struct KnownIp {
    pub ip: u32,
    pub zone_name: String,
}

/// Mathematical image of a route owner.
pub struct OwnerModel {
    pub zone: Seq<char>,
    pub route_type: RouteType,
    pub route_target: Seq<char>,
}

/// Mathematical image of an installed route.
pub struct EntryModel {
    pub network: u32,
    pub prefix_len: u8,
    pub owner: OwnerModel,
}

/// Mathematical image of a route action.
pub enum ActionModel {
    Add { network: u32, prefix_len: u8, route_type: RouteType, route_target: Seq<char> },
    Remove { network: u32, prefix_len: u8 },
}

impl View for RouteOwner {
    type V = OwnerModel;

    open spec fn view(&self) -> OwnerModel {
        OwnerModel {
            zone: self.zone_name@,
            route_type: self.route_type,
            route_target: self.route_target@,
        }
    }
}

impl View for InstalledEntry {
    type V = EntryModel;

    open spec fn view(&self) -> EntryModel {
        EntryModel { network: self.network, prefix_len: self.prefix_len, owner: self.owner@ }
    }
}

impl View for RouteAction {
    type V = ActionModel;

    open spec fn view(&self) -> ActionModel {
        match self {
            RouteAction::Add { network, prefix_len, route_type, route_target } => ActionModel::Add {
                network: *network,
                prefix_len: *prefix_len,
                route_type: *route_type,
                route_target: route_target@,
            },
            RouteAction::Remove { network, prefix_len } => ActionModel::Remove {
                network: *network,
                prefix_len: *prefix_len,
            },
        }
    }
}

/// The add action that installs an entry.
pub open spec fn add_action_of(e: EntryModel) -> ActionModel {
    ActionModel::Add {
        network: e.network,
        prefix_len: e.prefix_len,
        route_type: e.owner.route_type,
        route_target: e.owner.route_target,
    }
}

/// The models of a sequence of actions.
pub open spec fn acts_model(s: Seq<RouteAction>) -> Seq<ActionModel> {
    s.map_values(|a: RouteAction| a@)
}

/// An entry's key covers an address.
pub open spec fn entry_covers(e: EntryModel, ip: u32) -> bool {
    e.prefix_len <= 32 && spec_in_network(ip, e.network, e.prefix_len)
}

/// The sibling entries installed while bisecting `net/p` down to `target`'s
/// host route: at each step the half not containing `target` is installed
/// for `owner`.
pub open spec fn spec_carve_entries(net: u32, p: u8, target: u32, owner: OwnerModel) -> Seq<
    EntryModel,
>
    decreases 32 - p,
{
    if p >= 32 {
        Seq::empty()
    } else {
        let right = net | (1u32 << ((31 - p) as u32));
        let cp = (p + 1) as u8;
        if spec_network_address(target, cp) == net {
            seq![EntryModel { network: right, prefix_len: cp, owner }] + spec_carve_entries(
                net,
                cp,
                target,
                owner,
            )
        } else {
            seq![EntryModel { network: net, prefix_len: cp, owner }] + spec_carve_entries(
                right,
                cp,
                target,
                owner,
            )
        }
    }
}

/// Every element of `r` occurs among the first `n` elements of `src`.
pub open spec fn entries_from_first(r: Seq<EntryModel>, src: Seq<EntryModel>, n: int) -> bool {
    forall|a: int| #![trigger r[a]]
        0 <= a < r.len() ==> exists|b: int| 0 <= b < n && src[b] == r[a]
}

/// Every one of the first `n` elements of `src` not owned by zone `z`
/// occurs in `r`.
pub open spec fn keeps_other_zones_upto(
    r: Seq<EntryModel>,
    src: Seq<EntryModel>,
    z: Seq<char>,
    n: int,
) -> bool {
    forall|b: int| #![trigger src[b]]
        0 <= b < n && src[b].owner.zone != z ==> exists|a: int| 0 <= a < r.len() && r[a] == src[b]
}

/// Every record of `r` occurs among the first `n` records of `src`.
pub open spec fn known_from_first(r: Seq<KnownIp>, src: Seq<KnownIp>, n: int) -> bool {
    forall|a: int| #![trigger r[a]]
        0 <= a < r.len() ==> exists|b: int| 0 <= b < n && src[b] == r[a]
}

/// Every one of the first `n` records of `src` not owned by zone `z`
/// occurs in `r`.
pub open spec fn keeps_other_known_upto(
    r: Seq<KnownIp>,
    src: Seq<KnownIp>,
    z: Seq<char>,
    n: int,
) -> bool {
    forall|b: int| #![trigger src[b]]
        0 <= b < n && src[b].zone_name@ != z ==> exists|a: int| 0 <= a < r.len() && r[a] == src[b]
}

/// An action emitted while a fresh aggregate is carved around conflicts:
/// it stays inside the aggregate range; an add is strictly finer than the
/// aggregate and carries the installing zone's disposition; a remove is at
/// the aggregate prefix or finer.
pub open spec fn carve_phase_action(
    a: ActionModel,
    agg_net: u32,
    aggp: u8,
    route_type: RouteType,
    route_target: Seq<char>,
) -> bool {
    match a {
        ActionModel::Add { network, prefix_len, route_type: rt2, route_target: t2 } => {
            &&& spec_network_address(network, aggp) == agg_net
            &&& aggp < prefix_len <= 32
            &&& rt2 == route_type
            &&& t2 == route_target
        },
        ActionModel::Remove { network, prefix_len } => {
            &&& spec_network_address(network, aggp) == agg_net
            &&& aggp <= prefix_len <= 32
        },
    }
}

/// A route present while a fresh aggregate is carved: either one of the
/// untouched pre-existing routes, or a route of the installing zone inside
/// the aggregate range.
spec fn carve_phase_entry(
    e: EntryModel,
    old_r: Seq<EntryModel>,
    agg_net: u32,
    aggp: u8,
    zone: Seq<char>,
    route_type: RouteType,
    route_target: Seq<char>,
) -> bool {
    ||| (exists|b: int| 0 <= b < old_r.len() && #[trigger] old_r[b] == e)
    ||| {
        &&& spec_network_address(e.network, aggp) == agg_net
        &&& aggp <= e.prefix_len <= 32
        &&& e.owner == (OwnerModel { zone, route_type, route_target })
    }
}

/// The full effect of processing one address: what [`RouteAggregator::process_ip`]
/// promises of the state change and the emitted actions, stated over the
/// aggregator values before and after and the action models. Callers that
/// forward the actions (the route manager) promise the same.
pub open spec fn process_ip_post(
    pre: RouteAggregator,
    post: RouteAggregator,
    acts: Seq<ActionModel>,
    ip: u32,
    zone: Seq<char>,
    route_type: RouteType,
    route_target: Seq<char>,
) -> bool {
    &&& post.wf()
    &&& post.agg_prefix() == pre.agg_prefix()
    &&& post.knows(ip)
    &&& post.known_zone_is(ip, zone)
    &&& (forall|k: u32| #[trigger] post.knows(k) == (pre.knows(k) || k == ip))
    &&& (forall|k: u32, z: Seq<char>|
        k != ip ==> #[trigger] post.known_zone_is(k, z) == pre.known_zone_is(k, z))
    &&& post.settled(ip, zone)
    &&& (pre.settled(ip, zone) ==> acts == Seq::<ActionModel>::empty() && post.routes_model()
        == pre.routes_model())
    &&& (pre.agg_prefix() >= 32 && !pre.has_key(ip, 32) ==> acts == seq![
        ActionModel::Add { network: ip, prefix_len: 32, route_type, route_target },
    ] && post.routes_model() == pre.routes_model().push(
        EntryModel {
            network: ip,
            prefix_len: 32,
            owner: OwnerModel { zone, route_type, route_target },
        },
    ))
    &&& (pre.agg_prefix() < 32 && pre.covered(ip) && !pre.covered_by_zone(ip, zone)
        ==> exists|i: int|
        {
            let e = #[trigger] pre.routes_model()[i];
            &&& 0 <= i < pre.routes_model().len()
            &&& entry_covers(e, ip)
            &&& e.owner.zone != zone
            &&& acts == seq![
                ActionModel::Remove { network: e.network, prefix_len: e.prefix_len },
            ] + spec_carve_entries(e.network, e.prefix_len, ip, e.owner).map_values(
                |m: EntryModel| add_action_of(m),
            ) + seq![ActionModel::Add { network: ip, prefix_len: 32, route_type, route_target }]
            &&& post.routes_model() == pre.routes_model().remove(i) + spec_carve_entries(
                e.network,
                e.prefix_len,
                ip,
                e.owner,
            ) + seq![
                EntryModel {
                    network: ip,
                    prefix_len: 32,
                    owner: OwnerModel { zone, route_type, route_target },
                },
            ]
        })
    &&& (pre.agg_prefix() < 32 && !pre.covered(ip) && pre.range_blocked(ip) ==> acts == seq![
        ActionModel::Add { network: ip, prefix_len: 32, route_type, route_target },
    ] && post.routes_model() == pre.routes_model().push(
        EntryModel {
            network: ip,
            prefix_len: 32,
            owner: OwnerModel { zone, route_type, route_target },
        },
    ))
    &&& (pre.agg_prefix() < 32 && !pre.covered(ip) && !pre.range_blocked(ip) && !pre.has_conflict(
        ip,
        zone,
    ) ==> acts == seq![
        ActionModel::Add {
            network: spec_network_address(ip, pre.agg_prefix()),
            prefix_len: pre.agg_prefix(),
            route_type,
            route_target,
        },
    ] && post.routes_model() == pre.routes_model().push(
        EntryModel {
            network: spec_network_address(ip, pre.agg_prefix()),
            prefix_len: pre.agg_prefix(),
            owner: OwnerModel { zone, route_type, route_target },
        },
    ))
    &&& (pre.agg_prefix() < 32 && !pre.covered(ip) && !pre.range_blocked(ip) && pre.has_conflict(
        ip,
        zone,
    ) ==> {
        &&& acts.len() >= 1
        &&& acts[0] == (ActionModel::Add {
            network: spec_network_address(ip, pre.agg_prefix()),
            prefix_len: pre.agg_prefix(),
            route_type,
            route_target,
        })
        &&& (forall|k: u32|
            #[trigger] pre.conflict_ip(k, ip, zone) ==> !post.covered_by_zone(k, zone))
        &&& (forall|j: int|
            0 <= j < pre.routes_model().len() && (#[trigger] pre.routes_model()[j]).owner.zone
                != zone ==> exists|i2: int|
                0 <= i2 < post.routes_model().len() && post.routes_model()[i2]
                    == pre.routes_model()[j])
        &&& (forall|i2: int|
            1 <= i2 < acts.len() ==> carve_phase_action(
                #[trigger] acts[i2],
                spec_network_address(ip, pre.agg_prefix()),
                pre.agg_prefix(),
                route_type,
                route_target,
            ))
    })
}

/// Aggregates individual host routes into wider CIDR prefixes to reduce the
/// size of the kernel routing table.
///
/// When aggregation is enabled (prefix < 32), adding an address installs a
/// wider prefix covering it. Future addresses in the same range and zone are
/// no-ops. If an address from a different zone falls into an existing
/// aggregate, the aggregate is split into non-conflicting sub-prefixes.
pub struct RouteAggregator {
    /// Installed kernel routes claimed by this process.
    pub installed: Vec<InstalledEntry>,
    /// Ground truth: every observed host address and its zone.
    pub known_ips: Vec<KnownIp>,
    /// Target aggregation prefix length. 32 = disabled.
    pub prefix_len: u8,
}

impl RouteAggregator {
    /// The installed routes as a sequence of models.
    pub open spec fn routes_model(self) -> Seq<EntryModel> {
        self.installed@.map_values(|e: InstalledEntry| e@)
    }

    /// The configured aggregation prefix.
    pub open spec fn agg_prefix(self) -> u8 {
        self.prefix_len
    }

    /// Well-formedness: every installed key is an aligned network of prefix
    /// at most 32, no two installed keys overlap, and known addresses are
    /// recorded once each.
    pub open spec fn wf(self) -> bool {
        &&& (forall|i: int|
            0 <= i < self.routes_model().len() ==> {
                let e = #[trigger] self.routes_model()[i];
                e.prefix_len <= 32 && spec_aligned(e.network, e.prefix_len)
            })
        &&& (forall|i: int, j: int|
            0 <= i < self.routes_model().len() && 0 <= j < self.routes_model().len() && i != j
                ==> !spec_keys_overlap(
                (#[trigger] self.routes_model()[i]).network,
                self.routes_model()[i].prefix_len,
                (#[trigger] self.routes_model()[j]).network,
                self.routes_model()[j].prefix_len,
            ))
        &&& (forall|i: int, j: int|
            0 <= i < self.known_ips@.len() && 0 <= j < self.known_ips@.len() && i != j ==> (
            #[trigger] self.known_ips@[i]).ip != (#[trigger] self.known_ips@[j]).ip)
        &&& (self.prefix_len >= 32 ==> forall|i: int|
            0 <= i < self.routes_model().len() ==> (#[trigger] self.routes_model()[i]).prefix_len
                == 32)
    }

    /// Some installed key sits strictly inside the aggregate range of `ip`:
    /// a wider claim there would overlap it.
    pub open spec fn range_blocked(self, ip: u32) -> bool {
        exists|i: int|
            0 <= i < self.routes_model().len() && (#[trigger] self.routes_model()[i]).prefix_len
                > self.agg_prefix() && spec_network_address(
                self.routes_model()[i].network,
                self.agg_prefix(),
            ) == spec_network_address(ip, self.agg_prefix())
    }

    /// Some installed key covers `ip`.
    pub open spec fn covered(self, ip: u32) -> bool {
        exists|i: int|
            0 <= i < self.routes_model().len() && entry_covers(#[trigger] self.routes_model()[i], ip)
    }

    /// Some installed key owned by zone `z` covers `ip`.
    pub open spec fn covered_by_zone(self, ip: u32, z: Seq<char>) -> bool {
        exists|i: int|
            0 <= i < self.routes_model().len() && entry_covers(#[trigger] self.routes_model()[i], ip)
                && self.routes_model()[i].owner.zone == z
    }

    /// The exact key `net/p` is installed.
    pub open spec fn has_key(self, net: u32, p: u8) -> bool {
        exists|i: int|
            0 <= i < self.routes_model().len() && (#[trigger] self.routes_model()[i]).network == net
                && self.routes_model()[i].prefix_len == p
    }

    /// `ip` has been observed.
    pub open spec fn knows(self, ip: u32) -> bool {
        exists|i: int| 0 <= i < self.known_ips@.len() && (#[trigger] self.known_ips@[i]).ip == ip
    }

    /// `ip` has been observed under zone `z`.
    pub open spec fn known_zone_is(self, ip: u32, z: Seq<char>) -> bool {
        exists|i: int|
            0 <= i < self.known_ips@.len() && (#[trigger] self.known_ips@[i]).ip == ip
                && self.known_ips@[i].zone_name@ == z
    }

    /// Some installed route belongs to zone `z`.
    pub open spec fn installed_for_zone(self, z: Seq<char>) -> bool {
        exists|i: int|
            0 <= i < self.routes_model().len() && (#[trigger] self.routes_model()[i]).owner.zone
                == z
    }

    /// Some known address belongs to zone `z`.
    pub open spec fn known_for_zone(self, z: Seq<char>) -> bool {
        exists|i: int|
            0 <= i < self.known_ips@.len() && (#[trigger] self.known_ips@[i]).zone_name@ == z
    }

    /// After processing `(ip, z)` nothing more is owed: with aggregation
    /// disabled the host key is installed; with it enabled some route of
    /// zone `z` covers `ip`. A repeated call emits no actions.
    pub open spec fn settled(self, ip: u32, z: Seq<char>) -> bool {
        if self.agg_prefix() >= 32 {
            self.has_key(ip, 32)
        } else {
            self.covered_by_zone(ip, z)
        }
    }

    /// `k` is a conflict for installing `ip` under zone `z`: a known
    /// address of another zone inside `ip`'s aggregate range.
    pub open spec fn conflict_ip(self, k: u32, ip: u32, z: Seq<char>) -> bool {
        &&& k != ip
        &&& (exists|j: int|
            0 <= j < self.known_ips@.len() && (#[trigger] self.known_ips@[j]).ip == k
                && self.known_ips@[j].zone_name@ != z)
        &&& self.agg_prefix() < 32
        &&& spec_in_network(k, spec_network_address(ip, self.agg_prefix()), self.agg_prefix())
    }

    /// Some conflict exists for installing `ip` under zone `z`.
    pub open spec fn has_conflict(self, ip: u32, z: Seq<char>) -> bool {
        exists|k: u32| self.conflict_ip(k, ip, z)
    }

    pub fn new(prefix_len: Option<u8>) -> (r: Self)
        ensures
            r.wf(),
            r.agg_prefix() == (match prefix_len {
                Some(p) => p,
                None => 32,
            }),
            r.routes_model() == Seq::<EntryModel>::empty(),
            r.known_ips@.len() == 0,
    {
        let p = match prefix_len {
            Some(p) => p,
            None => 32,
        };
        let r = Self { installed: Vec::new(), known_ips: Vec::new(), prefix_len: p };
        proof {
            assert(r.routes_model() =~= Seq::<EntryModel>::empty());
        }
        r
    }

    /// Record that `ip` belongs to `zone_name`, replacing any earlier record.
    ///
    /// Static routes are registered through this so aggregates carve around
    /// them; no actions are returned because the caller installs the static
    /// route directly.
    pub fn register_static_ip(&mut self, ip: u32, zone_name: &str)
        requires
            old(self).wf(),
        ensures
            final(self).wf(),
            final(self).agg_prefix() == old(self).agg_prefix(),
            final(self).routes_model() == old(self).routes_model(),
            final(self).knows(ip),
            final(self).known_zone_is(ip, zone_name@),
            forall|k: u32| #[trigger] final(self).knows(k) == (old(self).knows(k) || k == ip),
            forall|k: u32, z: Seq<char>|
                k != ip ==> #[trigger] final(self).known_zone_is(k, z) == old(self).known_zone_is(
                    k,
                    z,
                ),
    {
        self.record_known(ip, zone_name);
    }

    /// Record `ip -> zone_name` in the known-address table.
    fn record_known(&mut self, ip: u32, zone_name: &str)
        requires
            old(self).wf(),
        ensures
            final(self).wf(),
            final(self).agg_prefix() == old(self).agg_prefix(),
            final(self).installed@ == old(self).installed@,
            final(self).routes_model() == old(self).routes_model(),
            final(self).knows(ip),
            final(self).known_zone_is(ip, zone_name@),
            forall|k: u32| #[trigger] final(self).knows(k) == (old(self).knows(k) || k == ip),
            forall|k: u32, z: Seq<char>|
                k != ip ==> #[trigger] final(self).known_zone_is(k, z) == old(self).known_zone_is(
                    k,
                    z,
                ),
    {
        let ghost old_known = self.known_ips@;
        let n = self.known_ips.len();
        let mut i: usize = 0;
        while i < n && self.known_ips[i].ip != ip
            invariant
                n == self.known_ips@.len(),
                i <= n,
                self == old(self),
                forall|j: int| 0 <= j < i ==> (#[trigger] self.known_ips@[j]).ip != ip,
            decreases n - i,
        {
            i += 1;
        }
        let ghost mid: Seq<KnownIp>;
        if i < n {
            // an earlier record exists; drop it
            self.known_ips.remove(i);
            proof {
                mid = self.known_ips@;
                assert forall|j: int| 0 <= j < mid.len() implies mid[j] == (if j < i {
                    old_known[j]
                } else {
                    old_known[j + 1]
                }) by {
                    if j < i {
                        assert(mid[j] == old_known.subrange(0, i as int)[j]);
                    } else {
                        assert(mid[j] == old_known.subrange(i + 1, old_known.len() as int)[j - i]);
                    }
                }
            }
        } else {
            proof {
                mid = self.known_ips@;
            }
        }
        proof {
            // nothing in `mid` records `ip`, and `mid` stays duplicate-free
            assert forall|j: int| 0 <= j < mid.len() implies (#[trigger] mid[j]).ip != ip by {
                if i < n {
                    assert(old_known[i as int].ip == ip);
                } else {
                }
            }
            assert(forall|a: int, b: int|
                0 <= a < mid.len() && 0 <= b < mid.len() && a != b ==> (#[trigger] mid[a]).ip != (
                #[trigger] mid[b]).ip);
            // every old record except ip's survives, and nothing new appears
            assert(forall|j: int|
                0 <= j < old_known.len() && (#[trigger] old_known[j]).ip != ip ==> exists|a: int|
                    0 <= a < mid.len() && mid[a] == old_known[j]) by {
                assert forall|j: int|
                    0 <= j < old_known.len() && (#[trigger] old_known[j]).ip
                        != ip implies exists|a: int| 0 <= a < mid.len() && mid[a] == old_known[j] by {
                    if i < n {
                        assert(j != i);
                        if j < i {
                            assert(mid[j] == old_known[j]);
                        } else {
                            assert(mid[j - 1] == old_known[j]);
                        }
                    } else {
                        assert(mid[j] == old_known[j]);
                    }
                }
            }
        }
        self.known_ips.push(KnownIp { ip, zone_name: zone_name.to_owned() });
        proof {
            let fin = self.known_ips@;
            let last = fin.len() - 1;
            assert(fin[last].ip == ip && fin[last].zone_name@ == zone_name@);
            assert(forall|j: int| 0 <= j < last ==> fin[j] == mid[j]);
            assert(self.routes_model() =~= old(self).routes_model());
            assert forall|k: u32| #[trigger] self.knows(k) == (old(self).knows(k) || k == ip) by {
                if self.knows(k) && k != ip {
                    let j = choose|j: int| 0 <= j < fin.len() && (#[trigger] fin[j]).ip == k;
                    assert(j != last);
                    assert(mid[j].ip == k);
                    if i < n && j >= i {
                        assert(old_known[j + 1].ip == k);
                    }
                }
                if old(self).knows(k) && k != ip {
                    let j = choose|j: int|
                        0 <= j < old_known.len() && (#[trigger] old_known[j]).ip == k;
                    let a = choose|a: int| 0 <= a < mid.len() && mid[a] == old_known[j];
                    assert(fin[a].ip == k);
                }
            }
            assert forall|k: u32, z: Seq<char>| k != ip implies #[trigger] self.known_zone_is(k, z)
                == old(self).known_zone_is(k, z) by {
                if self.known_zone_is(k, z) {
                    let j = choose|j: int|
                        0 <= j < fin.len() && (#[trigger] fin[j]).ip == k && fin[j].zone_name@ == z;
                    assert(j != last);
                    assert(mid[j].ip == k && mid[j].zone_name@ == z);
                    if i < n && j >= i {
                        assert(old_known[j + 1].ip == k && old_known[j + 1].zone_name@ == z);
                    } else {
                        assert(old_known[j].ip == k && old_known[j].zone_name@ == z);
                    }
                }
                if old(self).known_zone_is(k, z) {
                    let j = choose|j: int|
                        0 <= j < old_known.len() && (#[trigger] old_known[j]).ip == k
                            && old_known[j].zone_name@ == z;
                    let a = choose|a: int| 0 <= a < mid.len() && mid[a] == old_known[j];
                    assert(fin[a].ip == k && fin[a].zone_name@ == z);
                }
            }
        }
    }

    /// Remove every installed route and every known address of a zone.
    ///
    /// Kernel routes are not deleted from the OS; only this bookkeeping is
    /// purged.
    #[verifier::rlimit(50)]
    pub fn cleanup_zone(&mut self, zone_name: &str)
        requires
            old(self).wf(),
        ensures
            final(self).wf(),
            final(self).agg_prefix() == old(self).agg_prefix(),
            !final(self).installed_for_zone(zone_name@),
            !final(self).known_for_zone(zone_name@),
            entries_from_first(
                final(self).routes_model(),
                old(self).routes_model(),
                old(self).routes_model().len() as int,
            ),
            keeps_other_zones_upto(
                final(self).routes_model(),
                old(self).routes_model(),
                zone_name@,
                old(self).routes_model().len() as int,
            ),
            forall|k: u32, z: Seq<char>|
                z != zone_name@ ==> #[trigger] final(self).known_zone_is(k, z) == old(
                    self,
                ).known_zone_is(k, z),
    {
        let ghost src = self.installed@;
        let ghost old_r = old(self).routes_model();
        let kept = filter_installed_without_zone(&self.installed, zone_name);
        self.installed = kept;
        proof {
            let new_r = self.routes_model();
            assert(new_r == kept@.map_values(|e: InstalledEntry| e@));
            assert(old_r == src.map_values(|e: InstalledEntry| e@));
            assert(entries_from_first(new_r, old_r, old_r.len() as int));
            assert(keeps_other_zones_upto(new_r, old_r, zone_name@, old_r.len() as int));
            // alignment and prefix bounds carry over from the old table
            assert forall|i: int| 0 <= i < new_r.len() implies {
                let e = #[trigger] new_r[i];
                e.prefix_len <= 32 && spec_aligned(e.network, e.prefix_len)
            } by {
                let e = new_r[i];
                assert(exists|b: int| 0 <= b < old_r.len() && old_r[b] == e);
                let b = choose|b: int| 0 <= b < old_r.len() && old_r[b] == e;
            }
            assert(!self.installed_for_zone(zone_name@)) by {
                if self.installed_for_zone(zone_name@) {
                    let i = choose|i: int|
                        0 <= i < self.routes_model().len() && (
                        #[trigger] self.routes_model()[i]).owner.zone == zone_name@;
                    assert(kept@[i]@.owner.zone == zone_name@);
                }
            }
        }
        let ghost old_known = self.known_ips@;
        let kept_k = filter_known_without_zone(&self.known_ips, zone_name);
        self.known_ips = kept_k;
        proof {
            assert(known_from_first(self.known_ips@, old_known, old_known.len() as int));
            assert(keeps_other_known_upto(
                self.known_ips@,
                old_known,
                zone_name@,
                old_known.len() as int,
            ));
            assert(!self.known_for_zone(zone_name@)) by {
                if self.known_for_zone(zone_name@) {
                    let i = choose|i: int|
                        0 <= i < self.known_ips@.len() && (
                        #[trigger] self.known_ips@[i]).zone_name@ == zone_name@;
                    assert(kept_k@[i].zone_name@ == zone_name@);
                }
            }
            assert forall|k: u32, z: Seq<char>| z != zone_name@ implies #[trigger] self.known_zone_is(
                k,
                z,
            ) == old(self).known_zone_is(k, z) by {
                if self.known_zone_is(k, z) {
                    let a = choose|a: int|
                        0 <= a < self.known_ips@.len() && (#[trigger] self.known_ips@[a]).ip == k
                            && self.known_ips@[a].zone_name@ == z;
                    let e = self.known_ips@[a];
                    assert(exists|b: int| 0 <= b < old_known.len() && old_known[b] == e);
                    let b = choose|b: int| 0 <= b < old_known.len() && old_known[b] == e;
                    assert(old_known[b].ip == k && old_known[b].zone_name@ == z);
                }
                if old(self).known_zone_is(k, z) {
                    let b = choose|b: int|
                        0 <= b < old_known.len() && (#[trigger] old_known[b]).ip == k
                            && old_known[b].zone_name@ == z;
                    let e = old_known[b];
                    assert(e.zone_name@ != zone_name@);
                    assert(exists|a: int| 0 <= a < self.known_ips@.len() && self.known_ips@[a] == e);
                    let a = choose|a: int|
                        0 <= a < self.known_ips@.len() && self.known_ips@[a] == e;
                    assert(self.known_ips@[a].ip == k && self.known_ips@[a].zone_name@ == z);
                }
            }
            // well-formedness of the final state
            let fin_r = self.routes_model();
            assert(fin_r == kept@.map_values(|e: InstalledEntry| e@));
            assert(entries_from_first(fin_r, old_r, old_r.len() as int));
            assert forall|i: int| 0 <= i < fin_r.len() implies {
                let e = #[trigger] fin_r[i];
                e.prefix_len <= 32 && spec_aligned(e.network, e.prefix_len) && (self.prefix_len
                    >= 32 ==> e.prefix_len == 32)
            } by {
                let e = fin_r[i];
                assert(exists|b: int| 0 <= b < old_r.len() && old_r[b] == e);
                let b = choose|b: int| 0 <= b < old_r.len() && old_r[b] == e;
            }
            assert(forall|a: int, b: int|
                0 <= a < src.len() && 0 <= b < src.len() && a != b ==> !spec_keys_overlap(
                    (#[trigger] src[a])@.network,
                    src[a]@.prefix_len,
                    (#[trigger] src[b])@.network,
                    src[b]@.prefix_len,
                )) by {
                assert forall|a: int, b: int|
                    0 <= a < src.len() && 0 <= b < src.len() && a != b implies !spec_keys_overlap(
                    (#[trigger] src[a])@.network,
                    src[a]@.prefix_len,
                    (#[trigger] src[b])@.network,
                    src[b]@.prefix_len,
                ) by {
                    assert(old_r[a] == src[a]@ && old_r[b] == src[b]@);
                }
            }
            assert forall|i: int, j: int|
                0 <= i < fin_r.len() && 0 <= j < fin_r.len() && i != j implies !spec_keys_overlap(
                (#[trigger] fin_r[i]).network,
                fin_r[i].prefix_len,
                (#[trigger] fin_r[j]).network,
                fin_r[j].prefix_len,
            ) by {
                assert(fin_r[i] == kept@[i]@ && fin_r[j] == kept@[j]@);
            }
            assert(forall|i: int, j: int|
                0 <= i < self.known_ips@.len() && 0 <= j < self.known_ips@.len() && i != j ==> (
                #[trigger] self.known_ips@[i]).ip != (#[trigger] self.known_ips@[j]).ip) by {
                assert(self.known_ips@ == kept_k@);
            }
        }
    }

    /// Find the installed route that covers the given address, if any.
    fn find_covering_route(&self, ip: u32) -> (r: Option<usize>)
        requires
            self.wf(),
        ensures
            match r {
                Some(i) => 0 <= i < self.routes_model().len() && entry_covers(
                    self.routes_model()[i as int],
                    ip,
                ),
                None => !self.covered(ip),
            },
    {
        let n = self.installed.len();
        let mut i: usize = 0;
        while i < n
            invariant
                self.wf(),
                n == self.routes_model().len(),
                i <= n,
                forall|j: int| 0 <= j < i ==> !entry_covers(#[trigger] self.routes_model()[j], ip),
            decreases n - i,
        {
            let e_net = self.installed[i].network;
            let e_p = self.installed[i].prefix_len;
            proof {
                assert(self.routes_model()[i as int].prefix_len <= 32);
            }
            if ip_in_network(ip, e_net, e_p) {
                return Some(i);
            }
            i += 1;
        }
        None
    }

    /// Bisect the freed range `net/p` down to `target`'s host route,
    /// installing every sibling along the way for `owner` and appending the
    /// matching add actions.
    #[verifier::rlimit(80)]
    fn carve(
        &mut self,
        net: u32,
        p: u8,
        target: u32,
        owner: &RouteOwner,
        actions: &mut Vec<RouteAction>,
    )
        requires
            old(self).wf(),
            old(self).prefix_len < 32,
            p <= 32,
            spec_aligned(net, p),
            spec_in_network(target, net, p),
            forall|i: int|
                0 <= i < old(self).routes_model().len() ==> !spec_keys_overlap(
                    (#[trigger] old(self).routes_model()[i]).network,
                    old(self).routes_model()[i].prefix_len,
                    net,
                    p,
                ),
        ensures
            final(self).wf(),
            final(self).prefix_len == old(self).prefix_len,
            final(self).known_ips@ == old(self).known_ips@,
            final(self).routes_model() == old(self).routes_model() + spec_carve_entries(
                net,
                p,
                target,
                owner@,
            ),
            acts_model(final(actions)@) == acts_model(old(actions)@) + spec_carve_entries(
                net,
                p,
                target,
                owner@,
            ).map_values(|e: EntryModel| add_action_of(e)),
            forall|i: int|
                0 <= i < final(self).routes_model().len() ==> !spec_keys_overlap(
                    (#[trigger] final(self).routes_model()[i]).network,
                    final(self).routes_model()[i].prefix_len,
                    target,
                    32,
                ),
            forall|i: int|
                old(self).routes_model().len() <= i < final(self).routes_model().len() ==> {
                    let e = #[trigger] final(self).routes_model()[i];
                    e.owner == owner@ && p < e.prefix_len <= 32 && spec_network_address(
                        e.network,
                        p,
                    ) == net
                },
            forall|x: u32|
                #![trigger spec_in_network(x, net, p)]
                spec_in_network(x, net, p) && x != target ==> final(self).covered_by_zone(
                    x,
                    owner.zone_name@,
                ),
    {
        let ghost old_routes = old(self).routes_model();
        let ghost old_acts = acts_model(old(actions)@);
        let ghost full_carve = spec_carve_entries(net, p, target, owner@);
        let mut cur_net = net;
        let mut cur_p = p;
        let ghost mut done: Seq<EntryModel> = Seq::empty();
        proof {
            assert(old_routes + done =~= old_routes);
            assert(done + spec_carve_entries(cur_net, cur_p, target, owner@) =~= full_carve);
            assert(old_acts + done.map_values(|e: EntryModel| add_action_of(e)) =~= old_acts);
        }
        while cur_p < 32
            invariant
                self.wf(),
                self.prefix_len == old(self).prefix_len,
                self.prefix_len < 32,
                self.known_ips@ == old(self).known_ips@,
                p <= cur_p <= 32,
                spec_aligned(net, p),
                spec_aligned(cur_net, cur_p),
                spec_in_network(target, cur_net, cur_p),
                spec_network_address(cur_net, p) == net,
                old_routes == old(self).routes_model(),
                old_acts == acts_model(old(actions)@),
                full_carve == spec_carve_entries(net, p, target, owner@),
                forall|i: int|
                    0 <= i < self.routes_model().len() ==> !spec_keys_overlap(
                        (#[trigger] self.routes_model()[i]).network,
                        self.routes_model()[i].prefix_len,
                        cur_net,
                        cur_p,
                    ),
                self.routes_model() == old_routes + done,
                acts_model(actions@) == old_acts + done.map_values(
                    |e: EntryModel| add_action_of(e),
                ),
                full_carve == done + spec_carve_entries(cur_net, cur_p, target, owner@),
                forall|i: int|
                    old_routes.len() <= i < self.routes_model().len() ==> {
                        let e = #[trigger] self.routes_model()[i];
                        e.owner == owner@ && p < e.prefix_len <= 32 && spec_network_address(
                            e.network,
                            p,
                        ) == net
                    },
                forall|x: u32|
                    #![trigger spec_in_network(x, net, p)]
                    spec_in_network(x, net, p) && !spec_in_network(x, cur_net, cur_p)
                        ==> self.covered_by_zone(x, owner.zone_name@),
            decreases 32 - cur_p,
        {
            let child_p = cur_p + 1;
            let (left, right) = split_network(cur_net, cur_p);
            proof {
                lemma_split_network(cur_net, cur_p, target);
            }
            let target_left = ip_in_network(target, left, child_p);
            let contains: u32 = if target_left {
                left
            } else {
                right
            };
            let sibling: u32 = if target_left {
                right
            } else {
                left
            };
            let ghost prev_self = *self;
            let ghost prev_routes = self.routes_model();
            let ghost prev_done = done;
            let ghost sib_model = EntryModel {
                network: sibling,
                prefix_len: child_p,
                owner: owner@,
            };
            self.installed.push(
                InstalledEntry {
                    network: sibling,
                    prefix_len: child_p,
                    owner: RouteOwner {
                        zone_name: owner.zone_name.clone(),
                        route_type: owner.route_type,
                        route_target: owner.route_target.clone(),
                    },
                },
            );
            actions.push(
                RouteAction::Add {
                    network: sibling,
                    prefix_len: child_p,
                    route_type: owner.route_type,
                    route_target: owner.route_target.clone(),
                },
            );
            proof {
                done = done + seq![sib_model];
                let new_routes = self.routes_model();
                assert(new_routes =~= prev_routes.push(sib_model));
                assert(old_routes + done =~= (old_routes + prev_done).push(sib_model));
                assert(acts_model(actions@) =~= (old_acts + prev_done.map_values(
                    |e: EntryModel| add_action_of(e),
                )).push(add_action_of(sib_model)));
                assert(done.map_values(|e: EntryModel| add_action_of(e)) =~= prev_done.map_values(
                    |e: EntryModel| add_action_of(e),
                ).push(add_action_of(sib_model)));
                assert(old_acts + done.map_values(|e: EntryModel| add_action_of(e)) =~= (old_acts
                    + prev_done.map_values(|e: EntryModel| add_action_of(e))).push(
                    add_action_of(sib_model),
                ));
                // unfold one step of the carve recursion
                assert(spec_carve_entries(cur_net, cur_p, target, owner@) == seq![sib_model]
                    + spec_carve_entries(contains, child_p, target, owner@));
                assert(full_carve =~= done + spec_carve_entries(contains, child_p, target, owner@));
                // the sibling and the child stay inside the freed range
                assert(spec_network_address(sibling, cur_p) == cur_net);
                lemma_network_address_coarsen(sibling, p, cur_p);
                lemma_network_address_idempotent(sibling, cur_p);
                assert(spec_network_address(sibling, p) == net) by {
                    assert(spec_network_address(cur_net, p) == net);
                }
                assert(spec_network_address(contains, cur_p) == cur_net);
                lemma_network_address_coarsen(contains, p, cur_p);
                assert(spec_network_address(contains, p) == net);
                // well-formedness: the new sibling overlaps no existing key
                assert forall|i: int|
                    0 <= i < prev_routes.len() implies !spec_keys_overlap(
                    (#[trigger] prev_routes[i]).network,
                    prev_routes[i].prefix_len,
                    sibling,
                    child_p,
                ) by {
                    lemma_subset_no_overlap(
                        cur_net,
                        cur_p,
                        sibling,
                        child_p,
                        prev_routes[i].network,
                        prev_routes[i].prefix_len,
                    );
                    assert(!spec_keys_overlap(
                        sibling,
                        child_p,
                        prev_routes[i].network,
                        prev_routes[i].prefix_len,
                    ));
                    lemma_overlap_symmetric(
                        prev_routes[i].network,
                        prev_routes[i].prefix_len,
                        sibling,
                        child_p,
                    );
                }
                assert forall|i: int, j: int|
                    0 <= i < new_routes.len() && 0 <= j < new_routes.len() && i
                        != j implies !spec_keys_overlap(
                    (#[trigger] new_routes[i]).network,
                    new_routes[i].prefix_len,
                    (#[trigger] new_routes[j]).network,
                    new_routes[j].prefix_len,
                ) by {
                    if i < prev_routes.len() && j < prev_routes.len() {
                        assert(new_routes[i] == prev_routes[i] && new_routes[j] == prev_routes[j]);
                    } else if i < prev_routes.len() {
                        assert(new_routes[j] == sib_model);
                        lemma_subset_no_overlap(
                            cur_net,
                            cur_p,
                            sibling,
                            child_p,
                            prev_routes[i].network,
                            prev_routes[i].prefix_len,
                        );
                    } else {
                        assert(new_routes[i] == sib_model);
                        assert(j < prev_routes.len());
                        lemma_subset_no_overlap(
                            cur_net,
                            cur_p,
                            sibling,
                            child_p,
                            prev_routes[j].network,
                            prev_routes[j].prefix_len,
                        );
                        lemma_overlap_symmetric(
                            sibling,
                            child_p,
                            prev_routes[j].network,
                            prev_routes[j].prefix_len,
                        );
                    }
                }
                // nothing overlaps the child range
                assert forall|i: int|
                    0 <= i < new_routes.len() implies !spec_keys_overlap(
                    (#[trigger] new_routes[i]).network,
                    new_routes[i].prefix_len,
                    contains,
                    child_p,
                ) by {
                    if i < prev_routes.len() {
                        lemma_subset_no_overlap(
                            cur_net,
                            cur_p,
                            contains,
                            child_p,
                            prev_routes[i].network,
                            prev_routes[i].prefix_len,
                        );
                        lemma_overlap_symmetric(
                            contains,
                            child_p,
                            prev_routes[i].network,
                            prev_routes[i].prefix_len,
                        );
                        assert(new_routes[i] == prev_routes[i]);
                    } else {
                        assert(new_routes[i] == sib_model);
                        assert(spec_network_address(contains, child_p) == contains);
                        assert(sibling != contains);
                    }
                }
                // everything outside the child but inside the parent is covered
                assert forall|x: u32|
                    spec_in_network(x, net, p) && !spec_in_network(
                        x,
                        contains,
                        child_p,
                    ) implies self.covered_by_zone(x, owner.zone_name@) by {
                    if spec_in_network(x, cur_net, cur_p) {
                        lemma_split_network(cur_net, cur_p, x);
                        assert(spec_in_network(x, sibling, child_p));
                        let w = new_routes.len() - 1;
                        assert(entry_covers(new_routes[w], x) && new_routes[w].owner.zone
                            == owner.zone_name@);
                    } else {
                        assert(prev_self.covered_by_zone(x, owner.zone_name@));
                        let w = choose|w: int|
                            0 <= w < prev_self.routes_model().len() && entry_covers(
                                #[trigger] prev_self.routes_model()[w],
                                x,
                            ) && prev_self.routes_model()[w].owner.zone == owner.zone_name@;
                        assert(prev_self.routes_model() == prev_routes);
                        assert(new_routes[w] == prev_routes[w]);
                        assert(entry_covers(new_routes[w], x));
                    }
                }
            }
            cur_net = contains;
            cur_p = child_p;
        }
        proof {
            lemma_network_address_full(target);
            assert(cur_net == target);
            assert(spec_carve_entries(cur_net, cur_p, target, owner@) =~= Seq::<
                EntryModel,
            >::empty());
            assert(done =~= full_carve);
            assert forall|x: u32|
                spec_in_network(x, net, p) && x != target implies self.covered_by_zone(
                x,
                owner.zone_name@,
            ) by {
                lemma_network_address_full(x);
                assert(!spec_in_network(x, cur_net, cur_p));
            }
        }
    }

    /// Whether the host key `ip/32` is installed.
    fn has_host_key(&self, ip: u32) -> (r: bool)
        ensures
            r == self.has_key(ip, 32),
    {
        let n = self.installed.len();
        let mut i: usize = 0;
        while i < n
            invariant
                n == self.routes_model().len(),
                i <= n,
                forall|j: int|
                    0 <= j < i ==> !((#[trigger] self.routes_model()[j]).network == ip
                        && self.routes_model()[j].prefix_len == 32),
            decreases n - i,
        {
            if self.installed[i].network == ip && self.installed[i].prefix_len == 32 {
                proof {
                    assert(self.routes_model()[i as int].network == ip);
                }
                return true;
            }
            i += 1;
        }
        false
    }

    /// Whether some installed key sits strictly inside `ip`'s aggregate range.
    fn is_range_blocked(&self, ip: u32) -> (r: bool)
        requires
            self.wf(),
            self.agg_prefix() < 32,
        ensures
            r == self.range_blocked(ip),
    {
        let aggp = self.prefix_len;
        let agg_net = network_address(ip, aggp);
        let n = self.installed.len();
        let mut i: usize = 0;
        while i < n
            invariant
                self.wf(),
                aggp == self.agg_prefix(),
                aggp < 32,
                agg_net == spec_network_address(ip, aggp),
                n == self.routes_model().len(),
                i <= n,
                forall|j: int|
                    0 <= j < i ==> !((#[trigger] self.routes_model()[j]).prefix_len > aggp
                        && spec_network_address(self.routes_model()[j].network, aggp) == agg_net),
            decreases n - i,
        {
            let e_net = self.installed[i].network;
            let e_p = self.installed[i].prefix_len;
            if e_p > aggp && ip_in_network(e_net, agg_net, aggp) {
                proof {
                    assert(self.routes_model()[i as int].prefix_len > aggp);
                }
                return true;
            }
            i += 1;
        }
        false
    }

    /// Collect every known address of another zone inside `ip`'s aggregate
    /// range.
    fn collect_conflicts(&self, ip: u32, zone_name: &str) -> (r: Vec<u32>)
        requires
            self.wf(),
            self.agg_prefix() < 32,
            self.known_zone_is(ip, zone_name@),
        ensures
            forall|k: u32| #[trigger] r@.contains(k) == self.conflict_ip(k, ip, zone_name@),
    {
        let aggp = self.prefix_len;
        let agg_net = network_address(ip, aggp);
        let n = self.known_ips.len();
        let mut out: Vec<u32> = Vec::new();
        let mut i: usize = 0;
        while i < n
            invariant
                self.wf(),
                self.agg_prefix() < 32,
                self.known_zone_is(ip, zone_name@),
                aggp == self.agg_prefix(),
                agg_net == spec_network_address(ip, aggp),
                n == self.known_ips@.len(),
                i <= n,
                forall|a: int| #![trigger out@[a]]
                    0 <= a < out@.len() ==> exists|j: int|
                        0 <= j < i && (self.known_ips@[j].ip == out@[a])
                            && self.known_ips@[j].zone_name@ != zone_name@ && spec_in_network(
                            out@[a],
                            agg_net,
                            aggp,
                        ),
                forall|j: int|
                    0 <= j < i && (#[trigger] self.known_ips@[j]).zone_name@ != zone_name@
                        && spec_in_network(self.known_ips@[j].ip, agg_net, aggp) ==> out@.contains(
                        self.known_ips@[j].ip,
                    ),
            decreases n - i,
        {
            let k = self.known_ips[i].ip;
            if !str_eq(self.known_ips[i].zone_name.as_str(), zone_name) && ip_in_network(
                k,
                agg_net,
                aggp,
            ) {
                let ghost prev = out@;
                out.push(k);
                proof {
                    let last = out@.len() - 1;
                    assert(out@[last] == k);
                    assert forall|j: int|
                        0 <= j <= i && (#[trigger] self.known_ips@[j]).zone_name@ != zone_name@
                            && spec_in_network(
                            self.known_ips@[j].ip,
                            agg_net,
                            aggp,
                        ) implies out@.contains(self.known_ips@[j].ip) by {
                        if j == i {
                            assert(out@[last] == self.known_ips@[j].ip);
                        } else {
                            assert(prev.contains(self.known_ips@[j].ip));
                            let a = choose|a: int|
                                0 <= a < prev.len() && prev[a] == self.known_ips@[j].ip;
                            assert(out@[a] == self.known_ips@[j].ip);
                        }
                    }
                }
            }
            i += 1;
        }
        proof {
            assert forall|k: u32| #[trigger] out@.contains(k) == self.conflict_ip(
                k,
                ip,
                zone_name@,
            ) by {
                if out@.contains(k) {
                    let a = choose|a: int| 0 <= a < out@.len() && out@[a] == k;
                    let e = out@[a];
                    let j = choose|j: int|
                        0 <= j < i && (self.known_ips@[j].ip == e) && self.known_ips@[
                            j
                        ].zone_name@ != zone_name@ && spec_in_network(e, agg_net, aggp);
                    assert(k != ip) by {
                        if k == ip {
                            let j2 = choose|j2: int|
                                0 <= j2 < self.known_ips@.len() && (
                                #[trigger] self.known_ips@[j2]).ip == ip && self.known_ips@[
                                    j2
                                ].zone_name@ == zone_name@;
                            assert(j == j2);
                        }
                    }
                    assert(self.conflict_ip(k, ip, zone_name@));
                }
                if self.conflict_ip(k, ip, zone_name@) {
                    let j = choose|j: int|
                        0 <= j < self.known_ips@.len() && (#[trigger] self.known_ips@[j]).ip == k
                            && self.known_ips@[j].zone_name@ != zone_name@;
                    assert(out@.contains(self.known_ips@[j].ip));
                }
            }
        }
        out
    }

    /// Process an observed address and return the kernel route actions the
    /// caller must execute, in order.
    ///
    /// With aggregation disabled the call acts as an idempotent host-route
    /// cache. With it enabled, the call installs a covering aggregate,
    /// splits a foreign aggregate around the address, or carves the fresh
    /// aggregate around conflicting known addresses of other zones. When
    /// finer routes already sit inside the fresh aggregate range (possible
    /// after a zone cleanup), claiming the wide aggregate would overlap
    /// them, so only the host route is claimed.
    #[verifier::rlimit(100)]
    pub fn process_ip(
        &mut self,
        ip: u32,
        zone_name: &str,
        route_type: RouteType,
        route_target: &str,
    ) -> (r: Vec<RouteAction>)
        requires
            old(self).wf(),
        ensures
            final(self).wf(),
            final(self).agg_prefix() == old(self).agg_prefix(),
            final(self).knows(ip),
            final(self).known_zone_is(ip, zone_name@),
            forall|k: u32| #[trigger] final(self).knows(k) == (old(self).knows(k) || k == ip),
            forall|k: u32, z: Seq<char>|
                k != ip ==> #[trigger] final(self).known_zone_is(k, z) == old(self).known_zone_is(
                    k,
                    z,
                ),
            final(self).settled(ip, zone_name@),
            old(self).settled(ip, zone_name@) ==> (r@ == Seq::<RouteAction>::empty()
                && final(self).routes_model() == old(self).routes_model()),
            old(self).agg_prefix() >= 32 && !old(self).has_key(ip, 32) ==> acts_model(r@)
                == seq![
                ActionModel::Add {
                    network: ip,
                    prefix_len: 32,
                    route_type,
                    route_target: route_target@,
                },
            ] && final(self).routes_model() == old(self).routes_model().push(
                EntryModel {
                    network: ip,
                    prefix_len: 32,
                    owner: OwnerModel { zone: zone_name@, route_type, route_target: route_target@ },
                },
            ),
            old(self).agg_prefix() < 32 && old(self).covered(ip) && !old(self).covered_by_zone(
                ip,
                zone_name@,
            ) ==> exists|i: int|
                {
                    let e = #[trigger] old(self).routes_model()[i];
                    &&& 0 <= i < old(self).routes_model().len()
                    &&& entry_covers(e, ip)
                    &&& e.owner.zone != zone_name@
                    &&& acts_model(r@) == seq![
                        ActionModel::Remove { network: e.network, prefix_len: e.prefix_len },
                    ] + spec_carve_entries(e.network, e.prefix_len, ip, e.owner).map_values(
                        |m: EntryModel| add_action_of(m),
                    ) + seq![
                        ActionModel::Add {
                            network: ip,
                            prefix_len: 32,
                            route_type,
                            route_target: route_target@,
                        },
                    ]
                    &&& final(self).routes_model() == old(self).routes_model().remove(i)
                        + spec_carve_entries(e.network, e.prefix_len, ip, e.owner) + seq![
                        EntryModel {
                            network: ip,
                            prefix_len: 32,
                            owner: OwnerModel {
                                zone: zone_name@,
                                route_type,
                                route_target: route_target@,
                            },
                        },
                    ]
                },
            old(self).agg_prefix() < 32 && !old(self).covered(ip) && old(self).range_blocked(ip)
                ==> acts_model(r@) == seq![
                ActionModel::Add {
                    network: ip,
                    prefix_len: 32,
                    route_type,
                    route_target: route_target@,
                },
            ] && final(self).routes_model() == old(self).routes_model().push(
                EntryModel {
                    network: ip,
                    prefix_len: 32,
                    owner: OwnerModel { zone: zone_name@, route_type, route_target: route_target@ },
                },
            ),
            old(self).agg_prefix() < 32 && !old(self).covered(ip) && !old(self).range_blocked(ip)
                && !old(self).has_conflict(ip, zone_name@) ==> acts_model(r@) == seq![
                ActionModel::Add {
                    network: spec_network_address(ip, old(self).agg_prefix()),
                    prefix_len: old(self).agg_prefix(),
                    route_type,
                    route_target: route_target@,
                },
            ] && final(self).routes_model() == old(self).routes_model().push(
                EntryModel {
                    network: spec_network_address(ip, old(self).agg_prefix()),
                    prefix_len: old(self).agg_prefix(),
                    owner: OwnerModel { zone: zone_name@, route_type, route_target: route_target@ },
                },
            ),
            old(self).agg_prefix() < 32 && !old(self).covered(ip) && !old(self).range_blocked(ip)
                && old(self).has_conflict(ip, zone_name@) ==> {
                &&& r@.len() >= 1
                &&& acts_model(r@)[0] == (ActionModel::Add {
                    network: spec_network_address(ip, old(self).agg_prefix()),
                    prefix_len: old(self).agg_prefix(),
                    route_type,
                    route_target: route_target@,
                })
                &&& (forall|k: u32|
                    #[trigger] old(self).conflict_ip(k, ip, zone_name@) ==> !final(self).covered_by_zone(
                        k,
                        zone_name@,
                    ))
                &&& (forall|j: int|
                    0 <= j < old(self).routes_model().len() && (#[trigger] old(
                        self,
                    ).routes_model()[j]).owner.zone != zone_name@ ==> exists|i2: int|
                        0 <= i2 < final(self).routes_model().len() && final(self).routes_model()[
                            i2
                        ] == old(self).routes_model()[j])
                &&& (forall|i2: int|
                    1 <= i2 < acts_model(r@).len() ==> carve_phase_action(
                        #[trigger] acts_model(r@)[i2],
                        spec_network_address(ip, old(self).agg_prefix()),
                        old(self).agg_prefix(),
                        route_type,
                        route_target@,
                    ))
            },
    {
        self.record_known(ip, zone_name);
        let ghost mid = *self;
        proof {
            lemma_conflict_transfer(*old(self), mid, ip, zone_name@);
        }
        if self.prefix_len >= 32 {
            if self.has_host_key(ip) {
                proof {
                    assert(self.routes_model() =~= old(self).routes_model());
                }
                return Vec::new();
            }
            let ghost pre = self.routes_model();
            self.installed.push(
                InstalledEntry {
                    network: ip,
                    prefix_len: 32,
                    owner: RouteOwner {
                        zone_name: zone_name.to_owned(),
                        route_type,
                        route_target: route_target.to_owned(),
                    },
                },
            );
            let mut acts: Vec<RouteAction> = Vec::new();
            acts.push(
                RouteAction::Add {
                    network: ip,
                    prefix_len: 32,
                    route_type,
                    route_target: route_target.to_owned(),
                },
            );
            proof {
                let host = EntryModel {
                    network: ip,
                    prefix_len: 32,
                    owner: OwnerModel { zone: zone_name@, route_type, route_target: route_target@ },
                };
                assert(self.routes_model() =~= pre.push(host));
                assert(pre =~= old(self).routes_model());
                assert(acts_model(acts@) =~= seq![
                    ActionModel::Add {
                        network: ip,
                        prefix_len: 32,
                        route_type,
                        route_target: route_target@,
                    },
                ]);
                lemma_network_address_full(ip);
                let new_r = self.routes_model();
                let w = new_r.len() - 1;
                assert(new_r[w] == host);
                assert forall|i: int, j: int|
                    0 <= i < new_r.len() && 0 <= j < new_r.len() && i != j implies !spec_keys_overlap(
                    (#[trigger] new_r[i]).network,
                    new_r[i].prefix_len,
                    (#[trigger] new_r[j]).network,
                    new_r[j].prefix_len,
                ) by {
                    if i == w || j == w {
                        let o = if i == w {
                            j
                        } else {
                            i
                        };
                        assert(new_r[o] == pre[o]);
                        assert(pre[o].prefix_len == 32);
                        lemma_network_address_full(pre[o].network);
                        assert(pre[o].network != ip);
                    } else {
                        assert(new_r[i] == pre[i] && new_r[j] == pre[j]);
                    }
                }
                assert(self.has_key(ip, 32));
                assert(self.known_ips@ == mid.known_ips@);
                lemma_known_same(*self, mid);
            }
            return acts;
        }
        // aggregation enabled
        let found = self.find_covering_route(ip);
        match found {
            Some(ci) => {
                if str_eq(self.installed[ci].owner.zone_name.as_str(), zone_name) {
                    proof {
                        assert(self.covered_by_zone(ip, zone_name@)) by {
                            assert(entry_covers(self.routes_model()[ci as int], ip));
                        }
                        assert(self.routes_model() =~= old(self).routes_model());
                    }
                    return Vec::new();
                }
                let cov_net = self.installed[ci].network;
                let cov_p = self.installed[ci].prefix_len;
                let cov_owner = RouteOwner {
                    zone_name: self.installed[ci].owner.zone_name.clone(),
                    route_type: self.installed[ci].owner.route_type,
                    route_target: self.installed[ci].owner.route_target.clone(),
                };
                let ghost mid_r = self.routes_model();
                let ghost cov_e = mid_r[ci as int];
                self.installed.remove(ci);
                proof {
                    let cut = self.routes_model();
                    assert forall|j: int| 0 <= j < cut.len() implies cut[j] == (if j < ci {
                        mid_r[j]
                    } else {
                        mid_r[j + 1]
                    }) by {
                        if j < ci {
                            assert(self.installed@[j] == old(self).installed@.subrange(
                                0,
                                ci as int,
                            )[j]);
                        } else {
                            assert(self.installed@[j] == old(self).installed@.subrange(
                                ci + 1,
                                old(self).installed@.len() as int,
                            )[j - ci]);
                        }
                    }
                    assert(cut =~= mid_r.remove(ci as int));
                    assert forall|j: int| 0 <= j < cut.len() implies !spec_keys_overlap(
                        (#[trigger] cut[j]).network,
                        cut[j].prefix_len,
                        cov_net,
                        cov_p,
                    ) by {
                        if j < ci {
                            assert(cut[j] == mid_r[j]);
                        } else {
                            assert(cut[j] == mid_r[j + 1]);
                        }
                    }
                    assert forall|a: int, b: int|
                        0 <= a < cut.len() && 0 <= b < cut.len() && a != b implies !spec_keys_overlap(
                        (#[trigger] cut[a]).network,
                        cut[a].prefix_len,
                        (#[trigger] cut[b]).network,
                        cut[b].prefix_len,
                    ) by {
                        let a0 = if a < ci {
                            a
                        } else {
                            a + 1
                        };
                        let b0 = if b < ci {
                            b
                        } else {
                            b + 1
                        };
                        assert(cut[a] == mid_r[a0] && cut[b] == mid_r[b0]);
                    }
                    assert(self.wf());
                }
                let mut actions: Vec<RouteAction> = Vec::new();
                actions.push(RouteAction::Remove { network: cov_net, prefix_len: cov_p });
                proof {
                    assert(acts_model(actions@) =~= seq![
                        ActionModel::Remove { network: cov_net, prefix_len: cov_p },
                    ]);
                    assert(spec_in_network(ip, cov_net, cov_p));
                }
                let ghost pre_carve = self.routes_model();
                self.carve(cov_net, cov_p, ip, &cov_owner, &mut actions);
                let ghost post_carve = self.routes_model();
                self.installed.push(
                    InstalledEntry {
                        network: ip,
                        prefix_len: 32,
                        owner: RouteOwner {
                            zone_name: zone_name.to_owned(),
                            route_type,
                            route_target: route_target.to_owned(),
                        },
                    },
                );
                actions.push(
                    RouteAction::Add {
                        network: ip,
                        prefix_len: 32,
                        route_type,
                        route_target: route_target.to_owned(),
                    },
                );
                proof {
                    let host = EntryModel {
                        network: ip,
                        prefix_len: 32,
                        owner: OwnerModel {
                            zone: zone_name@,
                            route_type,
                            route_target: route_target@,
                        },
                    };
                    let hostm = ActionModel::Add {
                        network: ip,
                        prefix_len: 32,
                        route_type,
                        route_target: route_target@,
                    };
                    let new_r = self.routes_model();
                    let carve_e = spec_carve_entries(cov_net, cov_p, ip, cov_owner@);
                    assert(cov_owner@ == cov_e.owner);
                    assert(new_r =~= post_carve.push(host));
                    assert(new_r =~= mid_r.remove(ci as int) + carve_e + seq![host]);
                    assert(acts_model(actions@) =~= seq![
                        ActionModel::Remove { network: cov_net, prefix_len: cov_p },
                    ] + carve_e.map_values(|m: EntryModel| add_action_of(m)) + seq![hostm]);
                    lemma_network_address_full(ip);
                    // the new host key overlaps nothing that carve left behind
                    assert forall|i: int, j: int|
                        0 <= i < new_r.len() && 0 <= j < new_r.len() && i
                            != j implies !spec_keys_overlap(
                        (#[trigger] new_r[i]).network,
                        new_r[i].prefix_len,
                        (#[trigger] new_r[j]).network,
                        new_r[j].prefix_len,
                    ) by {
                        let w = new_r.len() - 1;
                        if i == w || j == w {
                            let o = if i == w {
                                j
                            } else {
                                i
                            };
                            assert(new_r[o] == post_carve[o]);
                            assert(!spec_keys_overlap(
                                post_carve[o].network,
                                post_carve[o].prefix_len,
                                ip,
                                32,
                            ));
                            lemma_overlap_symmetric(
                                post_carve[o].network,
                                post_carve[o].prefix_len,
                                ip,
                                32,
                            );
                        } else {
                            assert(new_r[i] == post_carve[i] && new_r[j] == post_carve[j]);
                        }
                    }
                    let w = new_r.len() - 1;
                    assert(new_r[w] == host);
                    assert(entry_covers(new_r[w], ip));
                    assert(self.covered_by_zone(ip, zone_name@));
                    // the covering entry seen by the caller
                    assert(entry_covers(old(self).routes_model()[ci as int], ip));
                    assert(old(self).routes_model()[ci as int] == cov_e);
                    // a same-zone covering in the old state is impossible here
                    if old(self).covered_by_zone(ip, zone_name@) {
                        let j = choose|j: int|
                            0 <= j < old(self).routes_model().len() && entry_covers(
                                #[trigger] old(self).routes_model()[j],
                                ip,
                            ) && old(self).routes_model()[j].owner.zone == zone_name@;
                        lemma_at_most_one_cover(*old(self), ip, j, ci as int);
                        assert(false);
                    }
                    assert(self.known_ips@ == mid.known_ips@);
                    lemma_known_same(*self, mid);
                }
                return actions;
            }
            None => {
                let aggp = self.prefix_len;
                let agg_net = network_address(ip, aggp);
                proof {
                    lemma_network_address_idempotent(ip, aggp);
                    assert(spec_aligned(agg_net, aggp));
                    assert(spec_in_network(ip, agg_net, aggp));
                }
                if self.is_range_blocked(ip) {
                    let ghost pre = self.routes_model();
                    self.installed.push(
                        InstalledEntry {
                            network: ip,
                            prefix_len: 32,
                            owner: RouteOwner {
                                zone_name: zone_name.to_owned(),
                                route_type,
                                route_target: route_target.to_owned(),
                            },
                        },
                    );
                    let mut acts: Vec<RouteAction> = Vec::new();
                    acts.push(
                        RouteAction::Add {
                            network: ip,
                            prefix_len: 32,
                            route_type,
                            route_target: route_target.to_owned(),
                        },
                    );
                    proof {
                        let host = EntryModel {
                            network: ip,
                            prefix_len: 32,
                            owner: OwnerModel {
                                zone: zone_name@,
                                route_type,
                                route_target: route_target@,
                            },
                        };
                        assert(self.routes_model() =~= pre.push(host));
                        assert(pre =~= old(self).routes_model());
                        assert(acts_model(acts@) =~= seq![
                            ActionModel::Add {
                                network: ip,
                                prefix_len: 32,
                                route_type,
                                route_target: route_target@,
                            },
                        ]);
                        lemma_network_address_full(ip);
                        let new_r = self.routes_model();
                        let w = new_r.len() - 1;
                        assert(new_r[w] == host);
                        assert forall|i: int, j: int|
                            0 <= i < new_r.len() && 0 <= j < new_r.len() && i
                                != j implies !spec_keys_overlap(
                            (#[trigger] new_r[i]).network,
                            new_r[i].prefix_len,
                            (#[trigger] new_r[j]).network,
                            new_r[j].prefix_len,
                        ) by {
                            if i == w || j == w {
                                let o = if i == w {
                                    j
                                } else {
                                    i
                                };
                                assert(new_r[o] == pre[o]);
                                assert(!entry_covers(pre[o], ip));
                                lemma_network_address_full(ip);
                            } else {
                                assert(new_r[i] == pre[i] && new_r[j] == pre[j]);
                            }
                        }
                        assert(entry_covers(new_r[w], ip));
                        assert(self.covered_by_zone(ip, zone_name@));
                        assert(self.known_ips@ == mid.known_ips@);
                        lemma_known_same(*self, mid);
                    }
                    return acts;
                }
                let conflicts = self.collect_conflicts(ip, zone_name);
                let ghost pre = self.routes_model();
                self.installed.push(
                    InstalledEntry {
                        network: agg_net,
                        prefix_len: aggp,
                        owner: RouteOwner {
                            zone_name: zone_name.to_owned(),
                            route_type,
                            route_target: route_target.to_owned(),
                        },
                    },
                );
                let mut actions: Vec<RouteAction> = Vec::new();
                actions.push(
                    RouteAction::Add {
                        network: agg_net,
                        prefix_len: aggp,
                        route_type,
                        route_target: route_target.to_owned(),
                    },
                );
                proof {
                    let agg_e = EntryModel {
                        network: agg_net,
                        prefix_len: aggp,
                        owner: OwnerModel {
                            zone: zone_name@,
                            route_type,
                            route_target: route_target@,
                        },
                    };
                    assert(self.routes_model() =~= pre.push(agg_e));
                    assert(pre =~= old(self).routes_model());
                    assert(acts_model(actions@) =~= seq![
                        ActionModel::Add {
                            network: agg_net,
                            prefix_len: aggp,
                            route_type,
                            route_target: route_target@,
                        },
                    ]);
                    let new_r = self.routes_model();
                    let w = new_r.len() - 1;
                    assert(new_r[w] == agg_e);
                    // the aggregate key overlaps no pre-existing key
                    assert forall|o: int| 0 <= o < pre.len() implies !spec_keys_overlap(
                        (#[trigger] pre[o]).network,
                        pre[o].prefix_len,
                        agg_net,
                        aggp,
                    ) by {
                        if spec_keys_overlap(pre[o].network, pre[o].prefix_len, agg_net, aggp) {
                            if pre[o].prefix_len <= aggp {
                                lemma_network_address_coarsen(ip, pre[o].prefix_len, aggp);
                                assert(entry_covers(pre[o], ip));
                            } else {
                                assert(mid.range_blocked(ip));
                            }
                        }
                    }
                    assert forall|i: int, j: int|
                        0 <= i < new_r.len() && 0 <= j < new_r.len() && i
                            != j implies !spec_keys_overlap(
                        (#[trigger] new_r[i]).network,
                        new_r[i].prefix_len,
                        (#[trigger] new_r[j]).network,
                        new_r[j].prefix_len,
                    ) by {
                        if i == w || j == w {
                            let o = if i == w {
                                j
                            } else {
                                i
                            };
                            assert(new_r[o] == pre[o]);
                            lemma_overlap_symmetric(
                                pre[o].network,
                                pre[o].prefix_len,
                                agg_net,
                                aggp,
                            );
                        } else {
                            assert(new_r[i] == pre[i] && new_r[j] == pre[j]);
                        }
                    }
                    assert(entry_covers(new_r[w], ip));
                    assert(self.covered_by_zone(ip, zone_name@));
                }
                if conflicts.is_empty() {
                    proof {
                        assert(!mid.has_conflict(ip, zone_name@)) by {
                            if mid.has_conflict(ip, zone_name@) {
                                let k = choose|k: u32| mid.conflict_ip(k, ip, zone_name@);
                                assert(conflicts@.contains(k));
                            }
                        }
                        assert(self.known_ips@ == mid.known_ips@);
                        lemma_known_same(*self, mid);
                    }
                    return actions;
                }
                let ghost old_r = old(self).routes_model();
                proof {
                    assert forall|j: int|
                        0 <= j < old_r.len() && (#[trigger] old_r[j]).owner.zone
                            != zone_name@ implies exists|i2: int|
                        0 <= i2 < self.routes_model().len() && self.routes_model()[i2]
                            == old_r[j] by {
                        assert(self.routes_model()[j] == old_r[j]);
                    }
                    // the pre-existing routes do not touch the aggregate range
                    assert forall|j: int| 0 <= j < old_r.len() implies !spec_keys_overlap(
                        (#[trigger] old_r[j]).network,
                        old_r[j].prefix_len,
                        agg_net,
                        aggp,
                    ) by {
                        assert(old_r[j] == pre[j]);
                    }
                    // each current route is pre-existing or the fresh aggregate
                    assert forall|j: int|
                        0 <= j < self.routes_model().len() implies carve_phase_entry(
                        #[trigger] self.routes_model()[j],
                        old_r,
                        agg_net,
                        aggp,
                        zone_name@,
                        route_type,
                        route_target@,
                    ) by {
                        let cur = self.routes_model();
                        if j < pre.len() {
                            assert(cur[j] == pre[j]);
                            assert(old_r[j] == pre[j]);
                        } else {
                            assert(cur[j] == (EntryModel {
                                network: agg_net,
                                prefix_len: aggp,
                                owner: OwnerModel {
                                    zone: zone_name@,
                                    route_type,
                                    route_target: route_target@,
                                },
                            }));
                            lemma_network_address_idempotent(ip, aggp);
                        }
                    }
                }
                let n_c = conflicts.len();
                let mut idx: usize = 0;
                while idx < n_c
                    invariant
                        self.wf(),
                        self.prefix_len == mid.prefix_len,
                        self.prefix_len < 32,
                        self.known_ips@ == mid.known_ips@,
                        n_c == conflicts@.len(),
                        idx <= n_c,
                        mid.wf(),
                        forall|k: u32| #[trigger] conflicts@.contains(k) == mid.conflict_ip(
                            k,
                            ip,
                            zone_name@,
                        ),
                        self.covered_by_zone(ip, zone_name@),
                        forall|j: int|
                            0 <= j < idx ==> !self.covered_by_zone(
                                #[trigger] conflicts@[j],
                                zone_name@,
                            ),
                        forall|j: int|
                            0 <= j < old_r.len() && (#[trigger] old_r[j]).owner.zone != zone_name@
                                ==> exists|i2: int|
                                0 <= i2 < self.routes_model().len() && self.routes_model()[i2]
                                    == old_r[j],
                        actions@.len() >= 1,
                        acts_model(actions@).len() >= 1,
                        acts_model(actions@)[0] == (ActionModel::Add {
                            network: agg_net,
                            prefix_len: aggp,
                            route_type,
                            route_target: route_target@,
                        }),
                        aggp == mid.agg_prefix(),
                        aggp < 32,
                        agg_net == spec_network_address(ip, aggp),
                        spec_aligned(agg_net, aggp),
                        forall|j: int|
                            0 <= j < old_r.len() ==> !spec_keys_overlap(
                                (#[trigger] old_r[j]).network,
                                old_r[j].prefix_len,
                                agg_net,
                                aggp,
                            ),
                        forall|j: int|
                            0 <= j < self.routes_model().len() ==> carve_phase_entry(
                                #[trigger] self.routes_model()[j],
                                old_r,
                                agg_net,
                                aggp,
                                zone_name@,
                                route_type,
                                route_target@,
                            ),
                        forall|i2: int|
                            1 <= i2 < acts_model(actions@).len() ==> carve_phase_action(
                                #[trigger] acts_model(actions@)[i2],
                                agg_net,
                                aggp,
                                route_type,
                                route_target@,
                            ),
                    decreases n_c - idx,
                {
                    let k = conflicts[idx];
                    proof {
                        assert(conflicts@.contains(k));
                        assert(mid.conflict_ip(k, ip, zone_name@));
                        assert(k != ip);
                    }
                    let found2 = self.find_covering_route(k);
                    match found2 {
                        Some(ci2) => {
                            if str_eq(self.installed[ci2].owner.zone_name.as_str(), zone_name) {
                                let c_net = self.installed[ci2].network;
                                let c_p = self.installed[ci2].prefix_len;
                                let c_owner = RouteOwner {
                                    zone_name: self.installed[ci2].owner.zone_name.clone(),
                                    route_type: self.installed[ci2].owner.route_type,
                                    route_target: self.installed[ci2].owner.route_target.clone(),
                                };
                                let ghost before = self.routes_model();
                                let ghost prev_self = *self;
                                proof {
                                    // the cover of the conflict lies inside the
                                    // aggregate range and belongs to this call
                                    let e = before[ci2 as int];
                                    assert(carve_phase_entry(
                                        e,
                                        old_r,
                                        agg_net,
                                        aggp,
                                        zone_name@,
                                        route_type,
                                        route_target@,
                                    ));
                                    assert(spec_in_network(k, agg_net, aggp));
                                    if exists|b: int| 0 <= b < old_r.len() && #[trigger] old_r[b] == e {
                                        let b = choose|b: int|
                                            0 <= b < old_r.len() && #[trigger] old_r[b] == e;
                                        lemma_common_point_overlap(
                                            e.network,
                                            e.prefix_len,
                                            agg_net,
                                            aggp,
                                            k,
                                        );
                                    }
                                    assert(spec_network_address(c_net, aggp) == agg_net && aggp
                                        <= c_p <= 32);
                                    assert(c_owner@ == (OwnerModel {
                                        zone: zone_name@,
                                        route_type,
                                        route_target: route_target@,
                                    }));
                                }
                                self.installed.remove(ci2);
                                proof {
                                    let cut = self.routes_model();
                                    assert forall|j: int| 0 <= j < cut.len() implies cut[j] == (
                                    if j < ci2 {
                                        before[j]
                                    } else {
                                        before[j + 1]
                                    }) by {
                                        if j < ci2 {
                                            assert(self.installed@[j]
                                                == prev_self.installed@.subrange(0, ci2 as int)[j]);
                                        } else {
                                            assert(self.installed@[j]
                                                == prev_self.installed@.subrange(
                                                ci2 + 1,
                                                prev_self.installed@.len() as int,
                                            )[j - ci2]);
                                        }
                                    }
                                    assert forall|j: int| 0 <= j < cut.len() implies !spec_keys_overlap(
                                        (#[trigger] cut[j]).network,
                                        cut[j].prefix_len,
                                        c_net,
                                        c_p,
                                    ) by {
                                        if j < ci2 {
                                            assert(cut[j] == before[j]);
                                        } else {
                                            assert(cut[j] == before[j + 1]);
                                        }
                                    }
                                    assert forall|a: int, b: int|
                                        0 <= a < cut.len() && 0 <= b < cut.len() && a
                                            != b implies !spec_keys_overlap(
                                        (#[trigger] cut[a]).network,
                                        cut[a].prefix_len,
                                        (#[trigger] cut[b]).network,
                                        cut[b].prefix_len,
                                    ) by {
                                        let a0 = if a < ci2 {
                                            a
                                        } else {
                                            a + 1
                                        };
                                        let b0 = if b < ci2 {
                                            b
                                        } else {
                                            b + 1
                                        };
                                        assert(cut[a] == before[a0] && cut[b] == before[b0]);
                                    }
                                    assert(self.wf());
                                    assert forall|j: int|
                                        0 <= j < cut.len() implies carve_phase_entry(
                                        #[trigger] cut[j],
                                        old_r,
                                        agg_net,
                                        aggp,
                                        zone_name@,
                                        route_type,
                                        route_target@,
                                    ) by {
                                        if j < ci2 {
                                            assert(cut[j] == before[j]);
                                        } else {
                                            assert(cut[j] == before[j + 1]);
                                        }
                                    }
                                }
                                let ghost entry_acts = actions@;
                                actions.push(
                                    RouteAction::Remove { network: c_net, prefix_len: c_p },
                                );
                                proof {
                                    let am = acts_model(actions@);
                                    assert(am =~= acts_model(entry_acts).push(
                                        ActionModel::Remove { network: c_net, prefix_len: c_p },
                                    ));
                                    assert(am[0] == (ActionModel::Add {
                                        network: agg_net,
                                        prefix_len: aggp,
                                        route_type,
                                        route_target: route_target@,
                                    }));
                                    assert(spec_in_network(k, c_net, c_p));
                                    assert forall|i2: int|
                                        1 <= i2 < am.len() implies carve_phase_action(
                                        #[trigger] am[i2],
                                        agg_net,
                                        aggp,
                                        route_type,
                                        route_target@,
                                    ) by {
                                        if i2 < am.len() - 1 {
                                            assert(am[i2] == acts_model(entry_acts)[i2]);
                                        } else {
                                            assert(am[i2] == (ActionModel::Remove {
                                                network: c_net,
                                                prefix_len: c_p,
                                            }));
                                        }
                                    }
                                }
                                let ghost pre_acts = actions@;
                                let ghost cut_r = self.routes_model();
                                self.carve(c_net, c_p, k, &c_owner, &mut actions);
                                proof {
                                    let post = self.routes_model();
                                    let ce = spec_carve_entries(c_net, c_p, k, c_owner@);
                                    assert(post == cut_r + ce);
                                    assert(acts_model(actions@).len() >= acts_model(
                                        pre_acts,
                                    ).len());
                                    assert(actions@.len() == acts_model(actions@).len());
                                    assert(actions@.len() >= 1);
                                    assert(acts_model(actions@)[0] == (ActionModel::Add {
                                        network: agg_net,
                                        prefix_len: aggp,
                                        route_type,
                                        route_target: route_target@,
                                    }));
                                    // carved siblings stay in the aggregate range
                                    assert forall|j: int|
                                        0 <= j < post.len() implies carve_phase_entry(
                                        #[trigger] post[j],
                                        old_r,
                                        agg_net,
                                        aggp,
                                        zone_name@,
                                        route_type,
                                        route_target@,
                                    ) by {
                                        if j < cut_r.len() {
                                            assert(post[j] == cut_r[j]);
                                        } else {
                                            let e = post[j];
                                            assert(e.owner == c_owner@ && c_p < e.prefix_len <= 32
                                                && spec_network_address(e.network, c_p) == c_net);
                                            lemma_network_address_coarsen(e.network, aggp, c_p);
                                        }
                                    }
                                    let am = acts_model(actions@);
                                    let pam = acts_model(pre_acts);
                                    let cam = ce.map_values(|m: EntryModel| add_action_of(m));
                                    assert(am == pam + cam);
                                    assert forall|i2: int|
                                        1 <= i2 < am.len() implies carve_phase_action(
                                        #[trigger] am[i2],
                                        agg_net,
                                        aggp,
                                        route_type,
                                        route_target@,
                                    ) by {
                                        if i2 < pam.len() {
                                            assert(am[i2] == pam[i2]);
                                        } else {
                                            let m = i2 - pam.len();
                                            assert(am[i2] == cam[m]);
                                            assert(cam[m] == add_action_of(ce[m]));
                                            let e = post[cut_r.len() + m];
                                            assert(e == ce[m]);
                                            assert(e.owner == c_owner@ && c_p < e.prefix_len <= 32
                                                && spec_network_address(e.network, c_p) == c_net);
                                            lemma_network_address_coarsen(e.network, aggp, c_p);
                                        }
                                    }
                                    // the conflict is no longer covered at all
                                    assert forall|j2: int| 0 <= j2 < post.len() implies !entry_covers(
                                        #[trigger] post[j2],
                                        k,
                                    ) by {
                                        assert(!spec_keys_overlap(
                                            post[j2].network,
                                            post[j2].prefix_len,
                                            k,
                                            32,
                                        ));
                                        lemma_network_address_full(k);
                                    }
                                    assert(!self.covered_by_zone(k, zone_name@)) by {
                                        if self.covered_by_zone(k, zone_name@) {
                                            let j2 = choose|j2: int|
                                                0 <= j2 < post.len() && entry_covers(
                                                    #[trigger] post[j2],
                                                    k,
                                                ) && post[j2].owner.zone == zone_name@;
                                        }
                                    }
                                    // the processed address stays covered by its zone
                                    assert(self.covered_by_zone(ip, zone_name@)) by {
                                        let wprev = choose|w: int|
                                            0 <= w < before.len() && entry_covers(
                                                #[trigger] before[w],
                                                ip,
                                            ) && before[w].owner.zone == zone_name@;
                                        if wprev == ci2 {
                                            // the removed cover contained ip; a carved sibling covers it
                                            assert(spec_in_network(ip, c_net, c_p));
                                            assert(ip != k);
                                        } else {
                                            let wcut = if wprev < ci2 {
                                                wprev
                                            } else {
                                                wprev - 1
                                            };
                                            assert(cut_r[wcut] == before[wprev]);
                                            assert(post[wcut] == cut_r[wcut]);
                                            assert(entry_covers(post[wcut], ip));
                                        }
                                    }
                                    // earlier conflicts stay uncovered
                                    assert forall|j: int|
                                        0 <= j < idx implies !self.covered_by_zone(
                                        #[trigger] conflicts@[j],
                                        zone_name@,
                                    ) by {
                                        let kj = conflicts@[j];
                                        if self.covered_by_zone(kj, zone_name@) {
                                            let j2 = choose|j2: int|
                                                0 <= j2 < post.len() && entry_covers(
                                                    #[trigger] post[j2],
                                                    kj,
                                                ) && post[j2].owner.zone == zone_name@;
                                            if j2 < cut_r.len() {
                                                let b0 = if j2 < ci2 {
                                                    j2
                                                } else {
                                                    j2 + 1
                                                };
                                                assert(cut_r[j2] == before[b0]);
                                                assert(entry_covers(before[b0], kj));
                                                assert(prev_self.covered_by_zone(kj, zone_name@));
                                            } else {
                                                // a carved sibling lies inside the freed range
                                                let e = post[j2];
                                                assert(c_p < e.prefix_len <= 32
                                                    && spec_network_address(e.network, c_p)
                                                    == c_net);
                                                crate::net::lemma_in_network_trans(
                                                    kj,
                                                    c_net,
                                                    c_p,
                                                    e.network,
                                                    e.prefix_len,
                                                );
                                                assert(entry_covers(before[ci2 as int], kj));
                                                assert(prev_self.covered_by_zone(kj, zone_name@));
                                            }
                                        }
                                    }
                                    // other zones' routes survive
                                    assert forall|j: int|
                                        0 <= j < old_r.len() && (#[trigger] old_r[j]).owner.zone
                                            != zone_name@ implies exists|i2: int|
                                        0 <= i2 < self.routes_model().len()
                                            && self.routes_model()[i2] == old_r[j] by {
                                        let e = old_r[j];
                                        assert(exists|i2: int|
                                            0 <= i2 < before.len() && before[i2] == e);
                                        let i2 = choose|i2: int|
                                            0 <= i2 < before.len() && before[i2] == e;
                                        assert(i2 != ci2);
                                        let icut = if i2 < ci2 {
                                            i2
                                        } else {
                                            i2 - 1
                                        };
                                        assert(cut_r[icut] == before[i2]);
                                        assert(post[icut] == cut_r[icut]);
                                    }
                                }
                            } else {
                                proof {
                                    assert(!self.covered_by_zone(k, zone_name@)) by {
                                        if self.covered_by_zone(k, zone_name@) {
                                            let j2 = choose|j2: int|
                                                0 <= j2 < self.routes_model().len() && entry_covers(
                                                    #[trigger] self.routes_model()[j2],
                                                    k,
                                                ) && self.routes_model()[j2].owner.zone
                                                    == zone_name@;
                                            lemma_at_most_one_cover(*self, k, j2, ci2 as int);
                                        }
                                    }
                                }
                            }
                        }
                        None => {
                            proof {
                                assert(!self.covered_by_zone(k, zone_name@)) by {
                                    if self.covered_by_zone(k, zone_name@) {
                                        let j2 = choose|j2: int|
                                            0 <= j2 < self.routes_model().len() && entry_covers(
                                                #[trigger] self.routes_model()[j2],
                                                k,
                                            ) && self.routes_model()[j2].owner.zone == zone_name@;
                                        assert(self.covered(k));
                                    }
                                }
                            }
                        }
                    }
                    proof {
                        assert forall|j: int| 0 <= j < idx + 1 implies !self.covered_by_zone(
                            #[trigger] conflicts@[j],
                            zone_name@,
                        ) by {
                            if j == idx {
                                assert(!self.covered_by_zone(k, zone_name@));
                            }
                        }
                    }
                    idx += 1;
                }
                proof {
                    assert forall|k: u32| #[trigger] old(self).conflict_ip(
                        k,
                        ip,
                        zone_name@,
                    ) implies !self.covered_by_zone(k, zone_name@) by {
                        assert(mid.conflict_ip(k, ip, zone_name@));
                        assert(conflicts@.contains(k));
                        let j = choose|j: int| 0 <= j < conflicts@.len() && conflicts@[j] == k;
                        assert(!self.covered_by_zone(conflicts@[j], zone_name@));
                    }
                    assert(mid.has_conflict(ip, zone_name@)) by {
                        assert(conflicts@.contains(conflicts@[0]));
                    }
                    assert(self.known_ips@ == mid.known_ips@);
                    lemma_known_same(*self, mid);
                }
                return actions;
            }
        }
    }

    /// Whether any installed route belongs to the zone.
    pub fn has_installed_for_zone(&self, zone_name: &str) -> (r: bool)
        ensures
            r == self.installed_for_zone(zone_name@),
    {
        let n = self.installed.len();
        let mut i: usize = 0;
        while i < n
            invariant
                n == self.routes_model().len(),
                i <= n,
                forall|j: int|
                    0 <= j < i ==> (#[trigger] self.routes_model()[j]).owner.zone != zone_name@,
            decreases n - i,
        {
            if str_eq(self.installed[i].owner.zone_name.as_str(), zone_name) {
                proof {
                    assert((self.routes_model()[i as int]).owner.zone == zone_name@);
                }
                return true;
            }
            i += 1;
        }
        false
    }

    /// Whether any known address belongs to the zone.
    pub fn has_known_ip_for_zone(&self, zone_name: &str) -> (r: bool)
        ensures
            r == self.known_for_zone(zone_name@),
    {
        let n = self.known_ips.len();
        let mut i: usize = 0;
        while i < n
            invariant
                n == self.known_ips@.len(),
                i <= n,
                forall|j: int| 0 <= j < i ==> (#[trigger] self.known_ips@[j]).zone_name@ != zone_name@,
            decreases n - i,
        {
            if str_eq(self.known_ips[i].zone_name.as_str(), zone_name) {
                proof {
                    assert((self.known_ips@[i as int]).zone_name@ == zone_name@);
                }
                return true;
            }
            i += 1;
        }
        false
    }
}

/// Rebuild an installed-route table without the routes of one zone.
fn filter_installed_without_zone(src: &Vec<InstalledEntry>, zone_name: &str) -> (r: Vec<
    InstalledEntry,
>)
    ensures
        forall|a: int| 0 <= a < r@.len() ==> (#[trigger] r@[a])@.owner.zone != zone_name@,
        entries_from_first(
            r@.map_values(|e: InstalledEntry| e@),
            src@.map_values(|e: InstalledEntry| e@),
            src@.len() as int,
        ),
        keeps_other_zones_upto(
            r@.map_values(|e: InstalledEntry| e@),
            src@.map_values(|e: InstalledEntry| e@),
            zone_name@,
            src@.len() as int,
        ),
        (forall|a: int, b: int|
            0 <= a < src@.len() && 0 <= b < src@.len() && a != b ==> !spec_keys_overlap(
                (#[trigger] src@[a])@.network,
                src@[a]@.prefix_len,
                (#[trigger] src@[b])@.network,
                src@[b]@.prefix_len,
            )) ==> (forall|a: int, b: int|
            0 <= a < r@.len() && 0 <= b < r@.len() && a != b ==> !spec_keys_overlap(
                (#[trigger] r@[a])@.network,
                r@[a]@.prefix_len,
                (#[trigger] r@[b])@.network,
                r@[b]@.prefix_len,
            )),
{
    let ghost srcm = src@.map_values(|e: InstalledEntry| e@);
    let ghost pairwise = forall|a: int, b: int|
        0 <= a < src@.len() && 0 <= b < src@.len() && a != b ==> !spec_keys_overlap(
            (#[trigger] src@[a])@.network,
            src@[a]@.prefix_len,
            (#[trigger] src@[b])@.network,
            src@[b]@.prefix_len,
        );
    let mut kept: Vec<InstalledEntry> = Vec::new();
    let n = src.len();
    let mut i: usize = 0;
    while i < n
        invariant
            n == src@.len(),
            i <= n,
            srcm == src@.map_values(|e: InstalledEntry| e@),
            pairwise == (forall|a: int, b: int|
                0 <= a < src@.len() && 0 <= b < src@.len() && a != b ==> !spec_keys_overlap(
                    (#[trigger] src@[a])@.network,
                    src@[a]@.prefix_len,
                    (#[trigger] src@[b])@.network,
                    src@[b]@.prefix_len,
                )),
            forall|a: int| 0 <= a < kept@.len() ==> (#[trigger] kept@[a])@.owner.zone != zone_name@,
            entries_from_first(kept@.map_values(|e: InstalledEntry| e@), srcm, i as int),
            keeps_other_zones_upto(
                kept@.map_values(|e: InstalledEntry| e@),
                srcm,
                zone_name@,
                i as int,
            ),
            pairwise ==> (forall|a1: int, a2: int|
                0 <= a1 < kept@.len() && 0 <= a2 < kept@.len() && a1 != a2 ==> !spec_keys_overlap(
                    (#[trigger] kept@[a1])@.network,
                    kept@[a1]@.prefix_len,
                    (#[trigger] kept@[a2])@.network,
                    kept@[a2]@.prefix_len,
                )),
        decreases n - i,
    {
        let ghost prev = kept@;
        let ghost prevm = kept@.map_values(|e: InstalledEntry| e@);
        if !str_eq(src[i].owner.zone_name.as_str(), zone_name) {
            let net = src[i].network;
            let p = src[i].prefix_len;
            let zn = src[i].owner.zone_name.clone();
            let rt = src[i].owner.route_type;
            let tgt = src[i].owner.route_target.clone();
            kept.push(
                InstalledEntry {
                    network: net,
                    prefix_len: p,
                    owner: RouteOwner { zone_name: zn, route_type: rt, route_target: tgt },
                },
            );
            proof {
                let km = kept@.map_values(|e: InstalledEntry| e@);
                let a_new = kept@.len() - 1;
                assert(kept@[a_new]@ == src@[i as int]@);
                assert(km =~= prevm.push(srcm[i as int]));
                if pairwise {
                    assert forall|a1: int, a2: int|
                        0 <= a1 < kept@.len() && 0 <= a2 < kept@.len() && a1
                            != a2 implies !spec_keys_overlap(
                        (#[trigger] kept@[a1])@.network,
                        kept@[a1]@.prefix_len,
                        (#[trigger] kept@[a2])@.network,
                        kept@[a2]@.prefix_len,
                    ) by {
                        if a1 == a_new || a2 == a_new {
                            let a_old = if a1 == a_new {
                                a2
                            } else {
                                a1
                            };
                            let e = kept@[a_old]@;
                            assert(e == km[a_old]);
                            assert(exists|b: int| 0 <= b < i && srcm[b] == e);
                            let b = choose|b: int| 0 <= b < i && srcm[b] == e;
                            assert(!spec_keys_overlap(
                                src@[b]@.network,
                                src@[b]@.prefix_len,
                                src@[i as int]@.network,
                                src@[i as int]@.prefix_len,
                            ));
                            assert(!spec_keys_overlap(
                                src@[i as int]@.network,
                                src@[i as int]@.prefix_len,
                                src@[b]@.network,
                                src@[b]@.prefix_len,
                            ));
                        } else {
                            assert(kept@[a1] == prev[a1] && kept@[a2] == prev[a2]);
                        }
                    }
                }
                assert(entries_from_first(km, srcm, i + 1)) by {
                    assert forall|a: int| #![trigger km[a]] 0 <= a < km.len() implies exists|b: int|
                        0 <= b < i + 1 && srcm[b] == km[a] by {
                        if a == a_new {
                            assert(srcm[i as int] == km[a]);
                        } else {
                            assert(km[a] == prevm[a]);
                            assert(exists|b: int| 0 <= b < i && srcm[b] == prevm[a]);
                        }
                    }
                }
                assert(keeps_other_zones_upto(km, srcm, zone_name@, i + 1)) by {
                    assert forall|b: int| #![trigger srcm[b]]
                        0 <= b < i + 1 && srcm[b].owner.zone != zone_name@ implies exists|a: int|
                        0 <= a < km.len() && km[a] == srcm[b] by {
                        if b == i {
                            assert(km[a_new] == srcm[b]);
                        } else {
                            assert(exists|a: int| 0 <= a < prevm.len() && prevm[a] == srcm[b]);
                            let a = choose|a: int| 0 <= a < prevm.len() && prevm[a] == srcm[b];
                            assert(km[a] == srcm[b]);
                        }
                    }
                }
            }
        } else {
            proof {
                let km = kept@.map_values(|e: InstalledEntry| e@);
                assert(srcm[i as int].owner.zone == zone_name@);
                assert(entries_from_first(km, srcm, i + 1));
                assert(keeps_other_zones_upto(km, srcm, zone_name@, i + 1)) by {
                    assert forall|b: int| #![trigger srcm[b]]
                        0 <= b < i + 1 && srcm[b].owner.zone != zone_name@ implies exists|a: int|
                        0 <= a < km.len() && km[a] == srcm[b] by {
                        assert(b != i);
                        assert(exists|a: int| 0 <= a < km.len() && km[a] == srcm[b]);
                    }
                }
            }
        }
        i += 1;
    }
    kept
}

/// Rebuild a known-address table without the records of one zone.
fn filter_known_without_zone(src: &Vec<KnownIp>, zone_name: &str) -> (r: Vec<KnownIp>)
    requires
        forall|a: int, b: int|
            0 <= a < src@.len() && 0 <= b < src@.len() && a != b ==> (#[trigger] src@[a]).ip != (
            #[trigger] src@[b]).ip,
    ensures
        forall|a: int| 0 <= a < r@.len() ==> (#[trigger] r@[a]).zone_name@ != zone_name@,
        known_from_first(r@, src@, src@.len() as int),
        keeps_other_known_upto(r@, src@, zone_name@, src@.len() as int),
        forall|a: int, b: int|
            0 <= a < r@.len() && 0 <= b < r@.len() && a != b ==> (#[trigger] r@[a]).ip != (
            #[trigger] r@[b]).ip,
{
    let mut kept: Vec<KnownIp> = Vec::new();
    let n = src.len();
    let mut i: usize = 0;
    while i < n
        invariant
            n == src@.len(),
            i <= n,
            forall|a: int, b: int|
                0 <= a < src@.len() && 0 <= b < src@.len() && a != b ==> (#[trigger] src@[a]).ip
                    != (#[trigger] src@[b]).ip,
            forall|a: int| 0 <= a < kept@.len() ==> (#[trigger] kept@[a]).zone_name@ != zone_name@,
            known_from_first(kept@, src@, i as int),
            keeps_other_known_upto(kept@, src@, zone_name@, i as int),
            forall|a1: int, a2: int|
                0 <= a1 < kept@.len() && 0 <= a2 < kept@.len() && a1 != a2 ==> (
                #[trigger] kept@[a1]).ip != (#[trigger] kept@[a2]).ip,
        decreases n - i,
    {
        let ghost prev = kept@;
        if !str_eq(src[i].zone_name.as_str(), zone_name) {
            let kip = src[i].ip;
            let kz = src[i].zone_name.clone();
            kept.push(KnownIp { ip: kip, zone_name: kz });
            proof {
                let a_new = kept@.len() - 1;
                assert(kept@[a_new] == src@[i as int]);
                assert forall|a1: int, a2: int|
                    0 <= a1 < kept@.len() && 0 <= a2 < kept@.len() && a1 != a2 implies (
                #[trigger] kept@[a1]).ip != (#[trigger] kept@[a2]).ip by {
                    if a1 == a_new || a2 == a_new {
                        let a_old = if a1 == a_new {
                            a2
                        } else {
                            a1
                        };
                        let e = kept@[a_old];
                        assert(e == prev[a_old]);
                        assert(exists|b: int| 0 <= b < i && src@[b] == e);
                        let b = choose|b: int| 0 <= b < i && src@[b] == e;
                        assert(src@[b].ip != src@[i as int].ip);
                    } else {
                        assert(kept@[a1] == prev[a1] && kept@[a2] == prev[a2]);
                    }
                }
                assert(known_from_first(kept@, src@, i + 1)) by {
                    assert forall|a: int| #![trigger kept@[a]] 0 <= a < kept@.len() implies exists|
                        b: int,
                    | 0 <= b < i + 1 && src@[b] == kept@[a] by {
                        if a == a_new {
                            assert(src@[i as int] == kept@[a]);
                        } else {
                            assert(kept@[a] == prev[a]);
                            assert(exists|b: int| 0 <= b < i && src@[b] == prev[a]);
                        }
                    }
                }
                assert(keeps_other_known_upto(kept@, src@, zone_name@, i + 1)) by {
                    assert forall|b: int| #![trigger src@[b]]
                        0 <= b < i + 1 && src@[b].zone_name@ != zone_name@ implies exists|a: int|
                        0 <= a < kept@.len() && kept@[a] == src@[b] by {
                        if b == i {
                            assert(kept@[a_new] == src@[b]);
                        } else {
                            assert(exists|a: int| 0 <= a < prev.len() && prev[a] == src@[b]);
                            let a = choose|a: int| 0 <= a < prev.len() && prev[a] == src@[b];
                            assert(kept@[a] == src@[b]);
                        }
                    }
                }
            }
        } else {
            proof {
                assert(src@[i as int].zone_name@ == zone_name@);
                assert(known_from_first(kept@, src@, i + 1));
                assert(keeps_other_known_upto(kept@, src@, zone_name@, i + 1)) by {
                    assert forall|b: int| #![trigger src@[b]]
                        0 <= b < i + 1 && src@[b].zone_name@ != zone_name@ implies exists|a: int|
                        0 <= a < kept@.len() && kept@[a] == src@[b] by {
                        assert(b != i);
                        assert(exists|a: int| 0 <= a < kept@.len() && kept@[a] == src@[b]);
                    }
                }
            }
        }
        i += 1;
    }
    kept
}

/// At most one installed key covers any address/// Two aggregator values with the same known-address table agree on every
/// known-address judgement.
proof fn lemma_known_same(a: RouteAggregator, b: RouteAggregator)
    requires
        a.known_ips@ == b.known_ips@,
    ensures
        forall|k: u32| #[trigger] a.knows(k) == b.knows(k),
        forall|k: u32, z: Seq<char>| #[trigger] a.known_zone_is(k, z) == b.known_zone_is(k, z),
{
    assert forall|k: u32| #[trigger] a.knows(k) == b.knows(k) by {
        if a.knows(k) {
            let j = choose|j: int|
                0 <= j < a.known_ips@.len() && (#[trigger] a.known_ips@[j]).ip == k;
            assert(b.known_ips@[j].ip == k);
        }
        if b.knows(k) {
            let j = choose|j: int|
                0 <= j < b.known_ips@.len() && (#[trigger] b.known_ips@[j]).ip == k;
            assert(a.known_ips@[j].ip == k);
        }
    }
    assert forall|k: u32, z: Seq<char>| #[trigger] a.known_zone_is(k, z) == b.known_zone_is(
        k,
        z,
    ) by {
        if a.known_zone_is(k, z) {
            let j = choose|j: int|
                0 <= j < a.known_ips@.len() && (#[trigger] a.known_ips@[j]).ip == k && a.known_ips@[
                    j
                ].zone_name@ == z;
            assert(b.known_ips@[j].ip == k && b.known_ips@[j].zone_name@ == z);
        }
        if b.known_zone_is(k, z) {
            let j = choose|j: int|
                0 <= j < b.known_ips@.len() && (#[trigger] b.known_ips@[j]).ip == k && b.known_ips@[
                    j
                ].zone_name@ == z;
            assert(a.known_ips@[j].ip == k && a.known_ips@[j].zone_name@ == z);
        }
    }
}

/// Recording an address under a zone changes no other conflict judgement:
/// the conflicts for installing `ip` are the same before and after.
proof fn lemma_conflict_transfer(a: RouteAggregator, b: RouteAggregator, ip: u32, z: Seq<char>)
    requires
        a.wf(),
        b.wf(),
        b.agg_prefix() == a.agg_prefix(),
        forall|k: u32| #[trigger] b.knows(k) == (a.knows(k) || k == ip),
        forall|k: u32, zz: Seq<char>|
            k != ip ==> #[trigger] b.known_zone_is(k, zz) == a.known_zone_is(k, zz),
        b.known_zone_is(ip, z),
    ensures
        forall|k: u32| #[trigger] b.conflict_ip(k, ip, z) == a.conflict_ip(k, ip, z),
        b.has_conflict(ip, z) == a.has_conflict(ip, z),
{
    assert forall|k: u32| #[trigger] b.conflict_ip(k, ip, z) == a.conflict_ip(k, ip, z) by {
        if k != ip {
            lemma_foreign_record_char(a, k, z);
            lemma_foreign_record_char(b, k, z);
            assert(b.knows(k) == a.knows(k));
            assert(b.known_zone_is(k, z) == a.known_zone_is(k, z));
        }
    }
    if a.has_conflict(ip, z) {
        let k = choose|k: u32| a.conflict_ip(k, ip, z);
        assert(b.conflict_ip(k, ip, z));
    }
    if b.has_conflict(ip, z) {
        let k = choose|k: u32| b.conflict_ip(k, ip, z);
        assert(a.conflict_ip(k, ip, z));
    }
}

/// In a duplicate-free table, a record of `k` under some other zone exists
/// exactly when `k` is known but not recorded under `z`.
proof fn lemma_foreign_record_char(a: RouteAggregator, k: u32, z: Seq<char>)
    requires
        a.wf(),
    ensures
        (exists|j: int|
            0 <= j < a.known_ips@.len() && (#[trigger] a.known_ips@[j]).ip == k && a.known_ips@[
                j
            ].zone_name@ != z) == (a.knows(k) && !a.known_zone_is(k, z)),
{
    if exists|j: int|
        0 <= j < a.known_ips@.len() && (#[trigger] a.known_ips@[j]).ip == k && a.known_ips@[
            j
        ].zone_name@ != z {
        let j = choose|j: int|
            0 <= j < a.known_ips@.len() && (#[trigger] a.known_ips@[j]).ip == k && a.known_ips@[
                j
            ].zone_name@ != z;
        assert(a.knows(k));
        if a.known_zone_is(k, z) {
            let j2 = choose|j2: int|
                0 <= j2 < a.known_ips@.len() && (#[trigger] a.known_ips@[j2]).ip == k
                    && a.known_ips@[j2].zone_name@ == z;
            assert(j == j2);
        }
    }
    if a.knows(k) && !a.known_zone_is(k, z) {
        let j = choose|j: int| 0 <= j < a.known_ips@.len() && (#[trigger] a.known_ips@[j]).ip == k;
        assert(a.known_ips@[j].zone_name@ != z);
    }
}

/// An address recorded under a zone is no conflict for that zone: a fresh
/// aggregate of the zone covers it whole instead of carving around it.
pub proof fn lemma_same_zone_is_no_conflict(a: RouteAggregator, k: u32, ip: u32, z: Seq<char>)
    requires
        a.wf(),
        a.known_zone_is(k, z),
    ensures
        !a.conflict_ip(k, ip, z),
{
    if a.conflict_ip(k, ip, z) {
        let j = choose|j: int|
            0 <= j < a.known_ips@.len() && (#[trigger] a.known_ips@[j]).ip == k && a.known_ips@[
                j
            ].zone_name@ != z;
        let j2 = choose|j2: int|
            0 <= j2 < a.known_ips@.len() && (#[trigger] a.known_ips@[j2]).ip == k && a.known_ips@[
                j2
            ].zone_name@ == z;
        assert(j == j2);
    }
}

/// At most one installed key covers any address: two covering positions in a
/// well-formed aggregator coincide.
pub proof fn lemma_at_most_one_cover(a: RouteAggregator, ip: u32, i: int, j: int)
    requires
        a.wf(),
        0 <= i < a.routes_model().len(),
        0 <= j < a.routes_model().len(),
        entry_covers(a.routes_model()[i], ip),
        entry_covers(a.routes_model()[j], ip),
    ensures
        i == j,
{
    if i != j {
        let e1 = a.routes_model()[i];
        let e2 = a.routes_model()[j];
        lemma_common_point_overlap(e1.network, e1.prefix_len, e2.network, e2.prefix_len, ip);
    }
}

} // verus!
