//! IPv4 prefix arithmetic: network addresses, prefix splitting, containment.

use vstd::prelude::*;

verus! {

/// The network address of `ip` at prefix length `p`: the high `p` bits kept,
/// the rest cleared. Prefix 0 denotes the whole address space.
pub open spec fn spec_network_address(ip: u32, p: u8) -> u32
    recommends
        p <= 32,
{
    if p == 0 {
        0u32
    } else {
        ip & (0xffff_ffffu32 << ((32 - p) as u32))
    }
}

/// `ip` lies in the network `net/p`.
pub open spec fn spec_in_network(ip: u32, net: u32, p: u8) -> bool
    recommends
        p <= 32,
{
    spec_network_address(ip, p) == net
}

/// Compute the network address for an IP at a given prefix length.
pub fn network_address(ip: u32, prefix_len: u8) -> (r: u32)
    requires
        prefix_len <= 32,
    ensures
        r == spec_network_address(ip, prefix_len),
{
    if prefix_len == 0 {
        0
    } else {
        let k: u32 = (32 - prefix_len) as u32;
        ip & (0xffff_ffffu32 << k)
    }
}

/// Split a network into its two child halves (prefix_len + 1): the left child
/// keeps the network address, the right child sets the new bit.
pub fn split_network(net: u32, prefix_len: u8) -> (r: (u32, u32))
    requires
        prefix_len < 32,
    ensures
        r.0 == net,
        r.1 == (net | (1u32 << ((31 - prefix_len) as u32))),
{
    let child_prefix = prefix_len + 1;
    let left = net;
    let right = net | (1u32 << ((32 - child_prefix) as u32));
    (left, right)
}

/// Check if an IP is within a network/prefix.
pub fn ip_in_network(ip: u32, network: u32, prefix_len: u8) -> (r: bool)
    requires
        prefix_len <= 32,
    ensures
        r == spec_in_network(ip, network, prefix_len),
{
    network_address(ip, prefix_len) == network
}

/// A network key is aligned when its address is its own network address:
/// all bits below the prefix are clear.
pub open spec fn spec_aligned(net: u32, p: u8) -> bool
    recommends
        p <= 32,
{
    spec_network_address(net, p) == net
}

/// Two aligned network keys overlap exactly when the coarser one contains the
/// finer one's address.
pub open spec fn spec_keys_overlap(n1: u32, p1: u8, n2: u32, p2: u8) -> bool
    recommends
        p1 <= 32,
        p2 <= 32,
{
    if p1 <= p2 {
        spec_network_address(n2, p1) == n1
    } else {
        spec_network_address(n1, p2) == n2
    }
}

/// Taking the network address at prefix 32 is the identity.
pub proof fn lemma_network_address_full(ip: u32)
    ensures
        spec_network_address(ip, 32) == ip,
{
    assert(ip & (0xffff_ffffu32 << 0u32) == ip) by (bit_vector);
}

/// Taking the network address twice at the same prefix changes nothing.
pub proof fn lemma_network_address_idempotent(ip: u32, p: u8)
    requires
        p <= 32,
    ensures
        spec_network_address(spec_network_address(ip, p), p) == spec_network_address(ip, p),
{
    if p != 0 {
        let k: u32 = (32 - p) as u32;
        assert((ip & (0xffff_ffffu32 << k)) & (0xffff_ffffu32 << k) == ip & (0xffff_ffffu32
            << k)) by (bit_vector);
    }
}

/// Coarsening: the network address at a shorter prefix of a network address
/// at a longer prefix is the network address at the shorter prefix.
pub proof fn lemma_network_address_coarsen(ip: u32, p: u8, q: u8)
    requires
        p <= q,
        q <= 32,
    ensures
        spec_network_address(spec_network_address(ip, q), p) == spec_network_address(ip, p),
{
    if p != 0 {
        let kp: u32 = (32 - p) as u32;
        let kq: u32 = (32 - q) as u32;
        assert((ip & (0xffff_ffffu32 << kq)) & (0xffff_ffffu32 << kp) == ip & (0xffff_ffffu32
            << kp)) by (bit_vector)
            requires
                kq < 32u32,
                kq <= kp,
                kp < 32u32,
        ;
    }
}

/// Splitting an aligned network at the next prefix length: every address of
/// the parent falls in exactly one of the two children, both children are
/// aligned, and both lie within the parent.
pub proof fn lemma_split_network(net: u32, p: u8, x: u32)
    requires
        p < 32,
        spec_aligned(net, p),
    ensures
        ({
            let bit = 1u32 << ((31 - p) as u32);
            let right = net | bit;
            &&& spec_aligned(net, (p + 1) as u8)
            &&& spec_aligned(right, (p + 1) as u8)
            &&& net != right
            &&& spec_network_address(right, p) == net
            &&& (spec_in_network(x, net, p) ==> {
                &&& (spec_network_address(x, (p + 1) as u8) == net) != (spec_network_address(
                    x,
                    (p + 1) as u8,
                ) == right)
                &&& spec_in_network(x, net, (p + 1) as u8) || spec_in_network(
                    x,
                    right,
                    (p + 1) as u8,
                )
            })
        }),
{
    let bit = 1u32 << ((31 - p) as u32);
    let right = net | bit;
    let kc: u32 = (31 - p) as u32;
    if p == 0 {
        assert(net == 0);
        assert({
            let b = 1u32 << 31u32;
            &&& 0u32 & (0xffff_ffffu32 << 31u32) == 0u32
            &&& (0u32 | b) & (0xffff_ffffu32 << 31u32) == (0u32 | b)
            &&& 0u32 != (0u32 | b)
            &&& ((x & (0xffff_ffffu32 << 31u32) == 0u32) != (x & (0xffff_ffffu32 << 31u32) == (
            0u32 | b)))
        }) by (bit_vector);
    } else {
        let kp: u32 = (32 - p) as u32;
        assert({
            let b = 1u32 << kc;
            let r = net | b;
            &&& (net & (0xffff_ffffu32 << kc) == net)
            &&& (r & (0xffff_ffffu32 << kc) == r)
            &&& net != r
            &&& (r & (0xffff_ffffu32 << kp) == net)
            &&& ((x & (0xffff_ffffu32 << kp) == net) ==> ((x & (0xffff_ffffu32 << kc) == net) != (
            x & (0xffff_ffffu32 << kc) == r)))
        }) by (bit_vector)
            requires
                1u32 <= kp,
                kp < 32u32,
                kc < 32u32,
                kc + 1 == kp,
                net & (0xffff_ffffu32 << kp) == net,
        ;
    }
}

/// Overlap of aligned keys does not depend on the order of the keys.
pub proof fn lemma_overlap_symmetric(n1: u32, p1: u8, n2: u32, p2: u8)
    requires
        p1 <= 32,
        p2 <= 32,
        spec_aligned(n1, p1),
        spec_aligned(n2, p2),
    ensures
        spec_keys_overlap(n1, p1, n2, p2) == spec_keys_overlap(n2, p2, n1, p1),
{
}

/// Containment composes: an address inside a finer aligned key that lies in a
/// coarser aligned key lies in the coarser key too.
pub proof fn lemma_in_network_trans(x: u32, n1: u32, p1: u8, n2: u32, p2: u8)
    requires
        p1 <= p2,
        p2 <= 32,
        spec_in_network(x, n2, p2),
        spec_network_address(n2, p1) == n1,
    ensures
        spec_in_network(x, n1, p1),
{
    lemma_network_address_coarsen(x, p1, p2);
}

/// A common covered address makes two aligned keys overlap.
pub proof fn lemma_common_point_overlap(n1: u32, p1: u8, n2: u32, p2: u8, x: u32)
    requires
        p1 <= 32,
        p2 <= 32,
        spec_in_network(x, n1, p1),
        spec_in_network(x, n2, p2),
    ensures
        spec_keys_overlap(n1, p1, n2, p2),
{
    if p1 <= p2 {
        lemma_network_address_coarsen(x, p1, p2);
    } else {
        lemma_network_address_coarsen(x, p2, p1);
    }
}

/// A key nested inside a key that does not overlap some other key does not
/// overlap that other key either.
pub proof fn lemma_subset_no_overlap(n1: u32, p1: u8, ns: u32, ps: u8, n2: u32, p2: u8)
    requires
        p1 <= ps,
        ps <= 32,
        p2 <= 32,
        spec_aligned(ns, ps),
        spec_aligned(n2, p2),
        spec_network_address(ns, p1) == n1,
        !spec_keys_overlap(n1, p1, n2, p2),
    ensures
        !spec_keys_overlap(ns, ps, n2, p2),
{
    if spec_keys_overlap(ns, ps, n2, p2) {
        if ps <= p2 {
            // n2 lies inside ns, hence inside n1
            lemma_network_address_idempotent(n2, p2);
            lemma_in_network_trans(n2, ns, ps, n2, p2);
            lemma_in_network_trans(n2, n1, p1, ns, ps);
            lemma_common_point_overlap(n1, p1, n2, p2, n2);
        } else {
            // ns lies inside n2, and ns lies inside n1
            lemma_network_address_idempotent(ns, ps);
            lemma_in_network_trans(ns, n2, p2, ns, ps);
            lemma_in_network_trans(ns, n1, p1, ns, ps);
            lemma_common_point_overlap(n1, p1, n2, p2, ns);
        }
    }
}

/// An IPv4 address from its four dotted-quad octets, most significant first.
pub open spec fn spec_ipv4_from_octets(a: u8, b: u8, c: u8, d: u8) -> u32 {
    ((a as u32) << 24u32) | ((b as u32) << 16u32) | ((c as u32) << 8u32) | (d as u32)
}

/// Build an IPv4 address (as a `u32`) from its four octets.
pub fn ipv4_from_octets(a: u8, b: u8, c: u8, d: u8) -> (r: u32)
    ensures
        r == spec_ipv4_from_octets(a, b, c, d),
{
    ((a as u32) << 24u32) | ((b as u32) << 16u32) | ((c as u32) << 8u32) | (d as u32)
}

} // verus!
