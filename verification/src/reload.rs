//! Reload bookkeeping: diffing an old zone list against a new one to find
//! the zones to clean up and the zones that were added. The file watching
//! and the reload loop live outside the library.

use vstd::prelude::*;

use crate::config::{clone_zone, zone_eqv, ZoneConfig};
use crate::text::str_eq;

verus! {

/// Some zone in the list carries this name.
pub open spec fn spec_zones_have_name(zs: Seq<ZoneConfig>, n: Seq<char>) -> bool {
    exists|i: int| 0 <= i < zs.len() && (#[trigger] zs[i]).name@ == n
}

/// Whether any zone of the list carries the name.
fn zones_have_name(zs: &Vec<ZoneConfig>, name: &str) -> (r: bool)
    ensures
        r == spec_zones_have_name(zs@, name@),
{
    let n = zs.len();
    let mut i: usize = 0;
    while i < n
        invariant
            n == zs@.len(),
            i <= n,
            forall|j: int| 0 <= j < i ==> (#[trigger] zs@[j]).name@ != name@,
        decreases n - i,
    {
        if str_eq(zs[i].name.as_str(), name) {
            proof {
                assert(zs@[i as int].name@ == name@);
            }
            return true;
        }
        i += 1;
    }
    false
}

/// Compare two zone lists and return the names that need cleanup: each name
/// of the old list that the new list no longer carries, once each.
pub fn get_zones_to_cleanup(old_zones: &Vec<ZoneConfig>, new_zones: &Vec<ZoneConfig>) -> (r: Vec<
    String,
>)
    ensures
        forall|n: Seq<char>|
            #![trigger spec_zones_have_name(old_zones@, n)]
            (exists|a: int| 0 <= a < r@.len() && (#[trigger] r@[a])@ == n) == (
            spec_zones_have_name(old_zones@, n) && !spec_zones_have_name(new_zones@, n)),
        forall|a: int, b: int|
            0 <= a < r@.len() && 0 <= b < r@.len() && a != b ==> (#[trigger] r@[a])@ != (
            #[trigger] r@[b])@,
{
    let mut out: Vec<String> = Vec::new();
    let n = old_zones.len();
    let mut i: usize = 0;
    while i < n
        invariant
            n == old_zones@.len(),
            i <= n,
            forall|a: int|
                0 <= a < out@.len() ==> (exists|j: int|
                    0 <= j < i && (#[trigger] old_zones@[j]).name@ == out@[a]@)
                    && !spec_zones_have_name(new_zones@, (#[trigger] out@[a])@),
            forall|j: int|
                0 <= j < i && !spec_zones_have_name(new_zones@, (#[trigger] old_zones@[j]).name@)
                    ==> exists|a: int| 0 <= a < out@.len() && (#[trigger] out@[a])@
                    == old_zones@[j].name@,
            forall|a: int, b: int|
                0 <= a < out@.len() && 0 <= b < out@.len() && a != b ==> (#[trigger] out@[a])@ != (
                #[trigger] out@[b])@,
        decreases n - i,
    {
        let name = &old_zones[i].name;
        let ghost pre_out = out@;
        let in_new = zones_have_name(new_zones, name.as_str());
        let mut seen: bool = false;
        let on = out.len();
        let mut a: usize = 0;
        while a < on && !seen
            invariant
                on == out@.len(),
                a <= on,
                name@ == old_zones@[i as int].name@,
                !seen ==> forall|b: int| 0 <= b < a ==> (#[trigger] out@[b])@ != name@,
                out@ == pre_out,
                seen ==> exists|b: int| 0 <= b < pre_out.len() && (#[trigger] pre_out[b])@ == name@,
            decreases on - a + (if seen {
                0int
            } else {
                1int
            }),
        {
            if str_eq(out[a].as_str(), name.as_str()) {
                proof {
                    assert(out@[a as int]@ == name@);
                }
                seen = true;
            } else {
                a += 1;
            }
        }
        if !in_new && !seen {
            let ghost prev = out@;
            out.push(name.clone());
            proof {
                let last = out@.len() - 1;
                assert(out@[last]@ == old_zones@[i as int].name@);
                assert forall|x: int, y: int|
                    0 <= x < out@.len() && 0 <= y < out@.len() && x != y implies (
                #[trigger] out@[x])@ != (#[trigger] out@[y])@ by {
                    if x == last || y == last {
                        let o = if x == last {
                            y
                        } else {
                            x
                        };
                        assert(out@[o] == prev[o]);
                    } else {
                        assert(out@[x] == prev[x] && out@[y] == prev[y]);
                    }
                }
            }
        }
        proof {
            assert forall|j: int|
                0 <= j < i + 1 && !spec_zones_have_name(
                    new_zones@,
                    (#[trigger] old_zones@[j]).name@,
                ) implies exists|a: int| 0 <= a < out@.len() && (#[trigger] out@[a])@
                == old_zones@[j].name@ by {
                if j == i {
                    if seen {
                        let b = choose|b: int| 0 <= b < pre_out.len() && (#[trigger] pre_out[b])@ == name@;
                        assert(out@[b]@ == name@);
                    } else {
                        assert(out@[out@.len() - 1]@ == old_zones@[i as int].name@);
                    }
                } else {
                    let a = choose|a: int|
                        0 <= a < pre_out.len() && (#[trigger] pre_out[a])@ == old_zones@[j].name@;
                    assert(out@[a]@ == old_zones@[j].name@);
                }
            }
        }
        i += 1;
    }
    proof {
        assert forall|nm: Seq<char>|
            #![trigger spec_zones_have_name(old_zones@, nm)]
            (exists|a: int| 0 <= a < out@.len() && (#[trigger] out@[a])@ == nm) == (
        spec_zones_have_name(old_zones@, nm) && !spec_zones_have_name(new_zones@, nm)) by {
            if exists|a: int| 0 <= a < out@.len() && (#[trigger] out@[a])@ == nm {
                let a = choose|a: int| 0 <= a < out@.len() && (#[trigger] out@[a])@ == nm;
                let j = choose|j: int|
                    0 <= j < i && (#[trigger] old_zones@[j]).name@ == out@[a as int]@;
                assert(spec_zones_have_name(old_zones@, nm));
            }
            if spec_zones_have_name(old_zones@, nm) && !spec_zones_have_name(new_zones@, nm) {
                let j = choose|j: int| 0 <= j < old_zones@.len() && (#[trigger] old_zones@[j]).name@ == nm;
                assert(exists|a: int|
                    0 <= a < out@.len() && (#[trigger] out@[a])@ == old_zones@[j].name@);
            }
        }
    }
    out
}

/// Two zones hold the same values; kept opaque so list invariants stay
/// cheap for the solver.
#[verifier::opaque]
pub open spec fn zones_match(a: ZoneConfig, b: ZoneConfig) -> bool {
    zone_eqv(a, b)
}

/// Compare two zone lists and return copies of the zones that are new:
/// those whose names the old list does not carry, in the new list's order.
/// The witness sequence maps each returned zone to its source position,
/// strictly in order, so the result has exactly one copy per new zone.
#[verifier::rlimit(100)]
pub fn get_new_zones(old_zones: &Vec<ZoneConfig>, new_zones: &Vec<ZoneConfig>) -> (r: Vec<
    ZoneConfig,
>)
    ensures
        exists|idx: Seq<int>|
            {
                &&& #[trigger] idx.len() == r@.len()
                &&& (forall|a: int, b: int|
                    0 <= a < b < idx.len() ==> #[trigger] idx[a] < #[trigger] idx[b])
                &&& (forall|a: int|
                    #![trigger idx[a]]
                    0 <= a < idx.len() ==> 0 <= idx[a] < new_zones@.len() && zones_match(
                        r@[a],
                        new_zones@[idx[a]],
                    ) && !spec_zones_have_name(old_zones@, new_zones@[idx[a]].name@))
            },
        forall|j: int|
            0 <= j < new_zones@.len() && !spec_zones_have_name(
                old_zones@,
                (#[trigger] new_zones@[j]).name@,
            ) ==> exists|a: int| 0 <= a < r@.len() && zones_match(r@[a], new_zones@[j]),
{
    let mut out: Vec<ZoneConfig> = Vec::new();
    let n = new_zones.len();
    let mut i: usize = 0;
    let ghost mut srcs: Seq<int> = Seq::empty();
    while i < n
        invariant
            n == new_zones@.len(),
            i <= n,
            srcs.len() == out@.len(),
            forall|a: int, b: int| 0 <= a < b < srcs.len() ==> #[trigger] srcs[a] < #[trigger] srcs[b],
            forall|a: int|
                #![trigger srcs[a]]
                0 <= a < srcs.len() ==> 0 <= srcs[a] < i && zones_match(
                    out@[a],
                    new_zones@[srcs[a]],
                ) && !spec_zones_have_name(old_zones@, new_zones@[srcs[a]].name@),
            forall|j: int| #![trigger new_zones@[j]]
                0 <= j < i && !spec_zones_have_name(old_zones@, new_zones@[j].name@) ==> exists|
                    a: int,
                | 0 <= a < out@.len() && zones_match(out@[a], new_zones@[j]),
        decreases n - i,
    {
        let ghost prev = out@;
        let ghost prev_srcs = srcs;
        if !zones_have_name(old_zones, new_zones[i].name.as_str()) {
            let z = clone_zone(&new_zones[i]);
            out.push(z);
            proof {
                srcs = srcs.push(i as int);
                let last = out@.len() - 1;
                assert(srcs[last] == i as int);
                assert(zones_match(out@[last], new_zones@[i as int])) by {
                    reveal(zones_match);
                }
                assert forall|a: int| #![trigger srcs[a]] 0 <= a < srcs.len() implies 0 <= srcs[a]
                    < i + 1 && zones_match(out@[a], new_zones@[srcs[a]]) && !spec_zones_have_name(
                    old_zones@,
                    new_zones@[srcs[a]].name@,
                ) by {
                    if a == last {
                    } else {
                        assert(out@[a] == prev[a] && srcs[a] == prev_srcs[a]);
                    }
                }
                assert forall|a: int, b: int| 0 <= a < b < srcs.len() implies #[trigger] srcs[a]
                    < #[trigger] srcs[b] by {
                    if b == last {
                        assert(srcs[a] == prev_srcs[a]);
                        assert(prev_srcs[a] < i as int);
                    } else {
                        assert(srcs[a] == prev_srcs[a] && srcs[b] == prev_srcs[b]);
                    }
                }
                assert forall|j: int| #![trigger new_zones@[j]]
                    0 <= j < i + 1 && !spec_zones_have_name(
                        old_zones@,
                        new_zones@[j].name@,
                    ) implies exists|a: int| 0 <= a < out@.len() && zones_match(
                    out@[a],
                    new_zones@[j],
                ) by {
                    if j == i {
                        assert(zones_match(out@[last], new_zones@[j]));
                    } else {
                        let a = choose|a: int|
                            0 <= a < prev.len() && zones_match(#[trigger] prev[a], new_zones@[j as int]);
                        assert(out@[a] == prev[a]);
                        assert(zones_match(out@[a], new_zones@[j]));
                    }
                }
            }
        }
        i += 1;
    }
    proof {
        assert(srcs.len() == out@.len());
    }
    out
}

} // verus!
