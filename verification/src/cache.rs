//! The bounded DNS response cache: keyed by case-folded query name and
//! query type, each entry valid until its deadline. On insert-when-full all
//! expired entries are swept; if the cache is still full the insert is
//! dropped. The caller supplies the clock as a millisecond count, so every
//! timing judgement here is checked.

use vstd::prelude::*;

use crate::text::{lower_of, lowercase, str_eq};

verus! {

/// One cached response.
pub struct CacheSlot {
    /// Case-folded query name.
    pub qname: String,
    /// Query type code.
    pub qtype: u16,
    /// The wire bytes of the cached response message.
    pub response: Vec<u8>,
    /// When the entry was inserted, in milliseconds.
    pub inserted_at: u64,
    /// How long the entry stays valid, in milliseconds.
    pub ttl: u64,
}

/// A slot matches a case-folded key.
pub open spec fn slot_key_is(s: CacheSlot, key: Seq<char>, qtype: u16) -> bool {
    s.qname@ == key && s.qtype == qtype
}

/// A slot is still valid at time `now`.
pub open spec fn slot_fresh(s: CacheSlot, now: u64) -> bool {
    now - s.inserted_at < s.ttl
}

/// Two slots hold the same key, response and deadline.
pub open spec fn slot_eq(a: CacheSlot, b: CacheSlot) -> bool {
    a.qname@ == b.qname@ && a.qtype == b.qtype && a.response@ == b.response@ && a.inserted_at
        == b.inserted_at && a.ttl == b.ttl
}

/// Check a slot's validity without underflowing the clock arithmetic.
fn is_fresh(inserted_at: u64, ttl: u64, now: u64) -> (r: bool)
    ensures
        r == (now - inserted_at < ttl),
{
    if now >= inserted_at {
        now - inserted_at < ttl
    } else {
        true
    }
}

/// A bounded map from (case-folded query name, query type) to a response
/// and its deadline.
pub struct DnsCache {
    pub entries: Vec<CacheSlot>,
    pub max_entries: usize,
}

impl DnsCache {
    /// Each key appears at most once.
    pub open spec fn wf(self) -> bool {
        &&& (forall|i: int, j: int|
            0 <= i < self.entries@.len() && 0 <= j < self.entries@.len() && i != j
                ==> !((#[trigger] self.entries@[i]).qname@ == (
            #[trigger] self.entries@[j]).qname@ && self.entries@[i].qtype
                == self.entries@[j].qtype))
        &&& self.entries@.len() <= self.max_entries
    }

    /// The cache stores entries at all.
    pub open spec fn enabled(self) -> bool {
        self.max_entries > 0
    }

    /// A valid entry for the key exists at time `now`.
    pub open spec fn has_fresh(self, key: Seq<char>, qtype: u16, now: u64) -> bool {
        exists|i: int|
            0 <= i < self.entries@.len() && slot_key_is(#[trigger] self.entries@[i], key, qtype)
                && slot_fresh(self.entries@[i], now)
    }

    /// Some entry for the key exists, valid or not.
    pub open spec fn has_key(self, key: Seq<char>, qtype: u16) -> bool {
        exists|i: int|
            0 <= i < self.entries@.len() && slot_key_is(#[trigger] self.entries@[i], key, qtype)
    }

    /// The entry for a key holds these fields.
    pub open spec fn stores(
        self,
        key: Seq<char>,
        qtype: u16,
        response: Seq<u8>,
        inserted_at: u64,
        ttl: u64,
    ) -> bool {
        exists|i: int|
            0 <= i < self.entries@.len() && slot_key_is(#[trigger] self.entries@[i], key, qtype)
                && self.entries@[i].response@ == response && self.entries@[i].inserted_at
                == inserted_at && self.entries@[i].ttl == ttl
    }

    pub fn new(max_entries: usize) -> (r: Self)
        ensures
            r.wf(),
            r.max_entries == max_entries,
            r.entries@.len() == 0,
    {
        Self { entries: Vec::new(), max_entries }
    }

    pub fn is_enabled(&self) -> (r: bool)
        ensures
            r == self.enabled(),
    {
        self.max_entries > 0
    }

    /// The reload rule for the cache: a changed capacity rebuilds it, an
    /// unchanged one clears it; either way no stale entry survives the
    /// reload.
    pub fn reset_for_reload(&mut self, new_size: usize)
        ensures
            final(self).wf(),
            final(self).max_entries == new_size,
            final(self).entries@.len() == 0,
    {
        if new_size != self.max_entries {
            *self = DnsCache::new(new_size);
        } else {
            self.clear();
        }
    }

    /// Drop every entry.
    pub fn clear(&mut self)
        ensures
            final(self).wf(),
            final(self).entries@.len() == 0,
            final(self).max_entries == old(self).max_entries,
    {
        self.entries.clear();
    }

    /// Look up a response. The name is case-folded first; a hit returns the
    /// stored bytes, a stale entry is removed on the way.
    pub fn lookup(&mut self, qname: &str, qtype: u16, now: u64) -> (r: Option<Vec<u8>>)
        requires
            old(self).wf(),
        ensures
            final(self).wf(),
            final(self).max_entries == old(self).max_entries,
            // a response comes back exactly when a valid entry exists
            r is Some <==> old(self).has_fresh(lower_of(qname@), qtype, now),
            // and it is the stored response
            forall|i: int|
                0 <= i < old(self).entries@.len() && slot_key_is(
                    #[trigger] old(self).entries@[i],
                    lower_of(qname@),
                    qtype,
                ) && slot_fresh(old(self).entries@[i], now) ==> r is Some && r.unwrap()@ == old(
                    self,
                ).entries@[i].response@,
            // a hit leaves the table unchanged; a miss at most drops the
            // stale entry for this key
            r is Some ==> final(self).entries@ == old(self).entries@,
            r is None ==> final(self).entries@ == old(self).entries@ || (exists|i: int|
                0 <= i < old(self).entries@.len() && slot_key_is(
                    #[trigger] old(self).entries@[i],
                    lower_of(qname@),
                    qtype,
                ) && !slot_fresh(old(self).entries@[i], now) && final(self).entries@ == old(
                    self,
                ).entries@.remove(i)),
    {
        let key = lowercase(qname);
        let n = self.entries.len();
        let mut i: usize = 0;
        while i < n
            invariant
                self == old(self),
                old(self).wf(),
                key@ == lower_of(qname@),
                n == self.entries@.len(),
                i <= n,
                forall|j: int|
                    0 <= j < i ==> !slot_key_is(#[trigger] self.entries@[j], lower_of(qname@), qtype),
            decreases n - i,
        {
            if self.entries[i].qtype == qtype && str_eq(self.entries[i].qname.as_str(), key.as_str()) {
                if is_fresh(self.entries[i].inserted_at, self.entries[i].ttl, now) {
                    let resp = clone_bytes(&self.entries[i].response);
                    proof {
                        assert(slot_key_is(self.entries@[i as int], lower_of(qname@), qtype));
                        assert(slot_fresh(self.entries@[i as int], now));
                        assert forall|j: int|
                            0 <= j < old(self).entries@.len() && slot_key_is(
                                #[trigger] old(self).entries@[j],
                                lower_of(qname@),
                                qtype,
                            ) && slot_fresh(old(self).entries@[j], now) implies resp@ == old(
                            self,
                        ).entries@[j].response@ by {
                            assert(j == i as int);
                        }
                    }
                    return Some(resp);
                }
                // stale: drop it
                let ghost pre = self.entries@;
                self.entries.remove(i);
                proof {
                    assert(!slot_fresh(pre[i as int], now));
                    assert forall|j: int| 0 <= j < self.entries@.len() implies self.entries@[j] == (
                    if j < i {
                        pre[j]
                    } else {
                        pre[j + 1]
                    }) by {
                        if j < i {
                            assert(self.entries@[j] == pre.subrange(0, i as int)[j]);
                        } else {
                            assert(self.entries@[j] == pre.subrange(i + 1, pre.len() as int)[j
                                - i]);
                        }
                    }
                    assert(self.entries@ =~= pre.remove(i as int));
                    assert(!old(self).has_fresh(lower_of(qname@), qtype, now)) by {
                        if old(self).has_fresh(lower_of(qname@), qtype, now) {
                            let j = choose|j: int|
                                0 <= j < pre.len() && slot_key_is(
                                    #[trigger] pre[j],
                                    lower_of(qname@),
                                    qtype,
                                ) && slot_fresh(pre[j], now);
                            assert(j == i as int);
                        }
                    }
                }
                return None;
            }
            i += 1;
        }
        proof {
            assert(!old(self).has_fresh(lower_of(qname@), qtype, now)) by {
                if old(self).has_fresh(lower_of(qname@), qtype, now) {
                    let j = choose|j: int|
                        0 <= j < self.entries@.len() && slot_key_is(
                            #[trigger] self.entries@[j],
                            lower_of(qname@),
                            qtype,
                        ) && slot_fresh(self.entries@[j], now);
                }
            }
        }
        None
    }

    /// Insert or refresh a response. A disabled cache ignores the call.
    /// When the table is full and the key is new, expired entries are swept
    /// first; if it is still full the insert is dropped.
    pub fn insert(&mut self, qname: &str, qtype: u16, response: Vec<u8>, ttl: u64, now: u64)
        requires
            old(self).wf(),
        ensures
            final(self).wf(),
            final(self).max_entries == old(self).max_entries,
            !old(self).enabled() ==> final(self).entries@ == old(self).entries@,
            // the insert is accepted exactly when the cache is enabled and
            // the key already exists, or room exists, or the sweep frees room
            old(self).enabled() && (old(self).has_key(lower_of(qname@), qtype) || old(
                self,
            ).entries@.len() < old(self).max_entries || fresh_count(old(self).entries@, now) < old(
                self,
            ).max_entries) ==> final(self).stores(lower_of(qname@), qtype, response@, now, ttl),
            // whatever happens, entries come from the old table or are the new record
            forall|i: int|
                0 <= i < final(self).entries@.len() ==> (slot_key_is(
                    #[trigger] final(self).entries@[i],
                    lower_of(qname@),
                    qtype,
                ) && final(self).entries@[i].response@ == response@ && final(self).entries@[i].inserted_at == now && final(self).entries@[i].ttl == ttl) || (exists|
                    j: int,
                |
                    0 <= j < old(self).entries@.len() && slot_eq(
                        old(self).entries@[j],
                        final(self).entries@[i],
                    )),
            // valid entries under other keys survive
            forall|j: int|
                0 <= j < old(self).entries@.len() && slot_fresh(
                    #[trigger] old(self).entries@[j],
                    now,
                ) && !slot_key_is(old(self).entries@[j], lower_of(qname@), qtype) ==> exists|i: int|
                    0 <= i < final(self).entries@.len() && slot_eq(
                        final(self).entries@[i],
                        old(self).entries@[j],
                    ),
    {
        if self.max_entries == 0 {
            return ;
        }
        let key = lowercase(qname);
        let n = self.entries.len();
        let mut i: usize = 0;
        while i < n && !(self.entries[i].qtype == qtype && str_eq(
            self.entries[i].qname.as_str(),
            key.as_str(),
        ))
            invariant
                self == old(self),
                old(self).wf(),
                key@ == lower_of(qname@),
                n == self.entries@.len(),
                i <= n,
                forall|j: int|
                    0 <= j < i ==> !slot_key_is(#[trigger] self.entries@[j], lower_of(qname@), qtype),
            decreases n - i,
        {
            i += 1;
        }
        if i < n {
            // refresh the existing entry in place
            let ghost pre = self.entries@;
            let slot = CacheSlot { qname: key, qtype, response, inserted_at: now, ttl };
            let _old_slot = self.entries.remove(i);
            self.entries.push(slot);
            proof {
                let cut = pre.remove(i as int);
                assert forall|j: int| 0 <= j < cut.len() implies cut[j] == (if j < i {
                    pre[j]
                } else {
                    pre[j + 1]
                }) by {
                    if j < i {
                        assert(cut[j] == pre.subrange(0, i as int)[j]);
                    } else {
                        assert(cut[j] == pre.subrange(i + 1, pre.len() as int)[j - i]);
                    }
                }
                assert(self.entries@ =~= cut.push(
                    CacheSlot { qname: key, qtype, response, inserted_at: now, ttl },
                ));
                let last = self.entries@.len() - 1;
                assert(slot_key_is(self.entries@[last], lower_of(qname@), qtype));
                assert forall|a: int, b: int|
                    0 <= a < self.entries@.len() && 0 <= b < self.entries@.len() && a
                        != b implies !((#[trigger] self.entries@[a]).qname@ == (
                #[trigger] self.entries@[b]).qname@ && self.entries@[a].qtype
                    == self.entries@[b].qtype) by {
                    if a == last || b == last {
                        let o = if a == last {
                            b
                        } else {
                            a
                        };
                        let o0 = if o < i {
                            o
                        } else {
                            o + 1
                        };
                        assert(self.entries@[o] == pre[o0]);
                        assert(!slot_key_is(pre[o0], lower_of(qname@), qtype));
                    } else {
                        let a0 = if a < i {
                            a
                        } else {
                            a + 1
                        };
                        let b0 = if b < i {
                            b
                        } else {
                            b + 1
                        };
                        assert(self.entries@[a] == pre[a0] && self.entries@[b] == pre[b0]);
                    }
                }
                assert(old(self).has_key(lower_of(qname@), qtype)) by {
                    assert(slot_key_is(pre[i as int], lower_of(qname@), qtype));
                }
                assert forall|j: int|
                    0 <= j < pre.len() && slot_fresh(#[trigger] pre[j], now) && !slot_key_is(
                        pre[j],
                        lower_of(qname@),
                        qtype,
                    ) implies exists|i2: int|
                    0 <= i2 < self.entries@.len() && self.entries@[i2] == pre[j] by {
                    assert(j != i);
                    let i2 = if j < i {
                        j
                    } else {
                        j - 1
                    };
                    assert(self.entries@[i2] == pre[j]);
                    assert(slot_eq(self.entries@[i2], pre[j]));
                }
            }
            return ;
        }
        // new key
        if self.entries.len() < self.max_entries {
            let ghost pre = self.entries@;
            self.entries.push(CacheSlot { qname: key, qtype, response, inserted_at: now, ttl });
            proof {
                let last = self.entries@.len() - 1;
                assert(slot_key_is(self.entries@[last], lower_of(qname@), qtype));
                assert forall|a: int, b: int|
                    0 <= a < self.entries@.len() && 0 <= b < self.entries@.len() && a
                        != b implies !((#[trigger] self.entries@[a]).qname@ == (
                #[trigger] self.entries@[b]).qname@ && self.entries@[a].qtype
                    == self.entries@[b].qtype) by {
                    if a == last || b == last {
                        let o = if a == last {
                            b
                        } else {
                            a
                        };
                        assert(self.entries@[o] == pre[o]);
                        assert(!slot_key_is(pre[o], lower_of(qname@), qtype));
                    } else {
                        assert(self.entries@[a] == pre[a] && self.entries@[b] == pre[b]);
                    }
                }
                assert forall|j: int| #![trigger pre[j]] 0 <= j < pre.len() implies exists|
                    i2: int,
                | 0 <= i2 < self.entries@.len() && slot_eq(self.entries@[i2], pre[j]) by {
                    assert(self.entries@[j] == pre[j]);
                    assert(slot_eq(self.entries@[j], pre[j]));
                }
                assert forall|i2: int|
                    0 <= i2 < self.entries@.len() && i2 < pre.len() implies slot_eq(
                    pre[i2],
                    self.entries@[i2],
                ) by {
                    assert(self.entries@[i2] == pre[i2]);
                }
            }
            return ;
        }
        // full with a new key: sweep the expired entries
        let ghost pre = self.entries@;
        let mut kept: Vec<CacheSlot> = Vec::new();
        let mut j: usize = 0;
        while j < n
            invariant
                n == pre.len(),
                self.entries@ == pre,
                pre == old(self).entries@,
                old(self).wf(),
                key@ == lower_of(qname@),
                forall|b: int|
                    0 <= b < n ==> !slot_key_is(#[trigger] pre[b], lower_of(qname@), qtype),
                j <= n,
                kept@.len() <= j,
                forall|a: int| 0 <= a < kept@.len() ==> slot_fresh(#[trigger] kept@[a], now),
                forall|a: int| #![trigger kept@[a]]
                    0 <= a < kept@.len() ==> exists|b: int|
                        0 <= b < j && slot_eq(pre[b], kept@[a]),
                forall|b: int| #![trigger pre[b]]
                    0 <= b < j && slot_fresh(pre[b], now) ==> exists|a: int|
                        0 <= a < kept@.len() && slot_eq(kept@[a], pre[b]),
                forall|a1: int, a2: int|
                    0 <= a1 < kept@.len() && 0 <= a2 < kept@.len() && a1 != a2 ==> !((
                    #[trigger] kept@[a1]).qname@ == (#[trigger] kept@[a2]).qname@ && kept@[a1].qtype
                        == kept@[a2].qtype),
                kept@.len() == fresh_count(pre.subrange(0, j as int), now),
            decreases n - j,
        {
            let ghost prev = kept@;
            if is_fresh(self.entries[j].inserted_at, self.entries[j].ttl, now) {
                let s = &self.entries[j];
                kept.push(
                    CacheSlot {
                        qname: s.qname.clone(),
                        qtype: s.qtype,
                        response: clone_bytes(&s.response),
                        inserted_at: s.inserted_at,
                        ttl: s.ttl,
                    },
                );
                proof {
                    let a_new = kept@.len() - 1;
                    assert(slot_eq(pre[j as int], kept@[a_new]));
                    assert(slot_eq(kept@[a_new], pre[j as int]));
                    assert(slot_fresh(kept@[a_new], now));
                    assert forall|a1: int, a2: int|
                        0 <= a1 < kept@.len() && 0 <= a2 < kept@.len() && a1 != a2 implies !((
                    #[trigger] kept@[a1]).qname@ == (#[trigger] kept@[a2]).qname@ && kept@[a1].qtype
                        == kept@[a2].qtype) by {
                        if a1 == a_new || a2 == a_new {
                            let o = if a1 == a_new {
                                a2
                            } else {
                                a1
                            };
                            let b = choose|b: int| 0 <= b < j && slot_eq(pre[b], kept@[o]);
                            assert(!(pre[b].qname@ == pre[j as int].qname@ && pre[b].qtype
                                == pre[j as int].qtype));
                        } else {
                            assert(kept@[a1] == prev[a1] && kept@[a2] == prev[a2]);
                        }
                    }
                    lemma_fresh_count_extend(pre, j as int, now);
                    assert forall|b: int| #![trigger pre[b]]
                        0 <= b <= j && slot_fresh(pre[b], now) implies exists|a: int|
                        0 <= a < kept@.len() && slot_eq(kept@[a], pre[b]) by {
                        if b == j {
                            assert(slot_eq(kept@[a_new], pre[b]));
                        } else {
                            let a = choose|a: int| 0 <= a < prev.len() && slot_eq(prev[a], pre[b]);
                            assert(kept@[a] == prev[a]);
                            assert(slot_eq(kept@[a], pre[b]));
                        }
                    }
                    assert forall|a: int| #![trigger kept@[a]]
                        0 <= a < kept@.len() implies exists|b: int|
                        0 <= b <= j && slot_eq(pre[b], kept@[a]) by {
                        if a == a_new {
                            assert(slot_eq(pre[j as int], kept@[a]));
                        } else {
                            assert(kept@[a] == prev[a]);
                            let b = choose|b: int| 0 <= b < j && slot_eq(pre[b], prev[a]);
                            assert(slot_eq(pre[b], kept@[a]));
                        }
                    }
                }
            } else {
                proof {
                    lemma_fresh_count_extend(pre, j as int, now);
                }
            }
            j += 1;
        }
        proof {
            assert(pre.subrange(0, n as int) =~= pre);
        }
        if kept.len() < self.max_entries {
            let ghost swept = kept@;
            kept.push(CacheSlot { qname: key, qtype, response, inserted_at: now, ttl });
            let ghost with_new = kept@;
            self.entries = kept;
            proof {
                let last = with_new.len() - 1;
                assert(self.entries@ == with_new);
                assert(slot_key_is(with_new[last], lower_of(qname@), qtype));
                assert(with_new[last].response@ == response@ && with_new[last].inserted_at == now
                    && with_new[last].ttl == ttl);
                assert(self.stores(lower_of(qname@), qtype, response@, now, ttl));
                assert forall|a: int, b: int|
                    0 <= a < with_new.len() && 0 <= b < with_new.len() && a != b implies !((
                #[trigger] with_new[a]).qname@ == (#[trigger] with_new[b]).qname@
                    && with_new[a].qtype == with_new[b].qtype) by {
                    if a == last || b == last {
                        let o = if a == last {
                            b
                        } else {
                            a
                        };
                        assert(with_new[o] == swept[o]);
                        let b0 = choose|b0: int| 0 <= b0 < n && slot_eq(pre[b0], swept[o]);
                        assert(!slot_key_is(pre[b0], lower_of(qname@), qtype));
                    } else {
                        assert(with_new[a] == swept[a] && with_new[b] == swept[b]);
                    }
                }
                // every final entry is the new record or an old one
                assert forall|i: int| #![trigger with_new[i]]
                    0 <= i < with_new.len() && i != last implies exists|j2: int|
                    0 <= j2 < pre.len() && slot_eq(pre[j2], with_new[i]) by {
                    assert(with_new[i] == swept[i]);
                    let b0 = choose|b0: int| 0 <= b0 < n && slot_eq(pre[b0], swept[i]);
                }
                // every valid old entry survives
                assert forall|j2: int|
                    0 <= j2 < pre.len() && slot_fresh(#[trigger] pre[j2], now) implies exists|
                    i2: int,
                | 0 <= i2 < self.entries@.len() && slot_eq(self.entries@[i2], pre[j2]) by {
                    let a = choose|a: int| 0 <= a < swept.len() && slot_eq(swept[a], pre[j2]);
                    assert(with_new[a] == swept[a]);
                    assert(slot_eq(self.entries@[a], pre[j2]));
                }
            }
        } else {
            // still full: drop the insert
            proof {
                assert(fresh_count(pre, now) >= self.max_entries);
                assert forall|j2: int| #![trigger pre[j2]] 0 <= j2 < pre.len() implies exists|
                    i2: int,
                | 0 <= i2 < self.entries@.len() && slot_eq(old(self).entries@[j2], self.entries@[i2]) by {
                    assert(self.entries@[j2] == pre[j2]);
                    assert(slot_eq(pre[j2], pre[j2]));
                }
                assert forall|j2: int| #![trigger pre[j2]] 0 <= j2 < pre.len() implies exists|
                    i2: int,
                | 0 <= i2 < self.entries@.len() && slot_eq(self.entries@[i2], pre[j2]) by {
                    assert(self.entries@[j2] == pre[j2]);
                    assert(slot_eq(pre[j2], pre[j2]));
                }
            }
        }
    }
}

/// A stored response answers a lookup of its key at every time before its
/// deadline: a hit is exactly an un-expired prior insert.
pub proof fn lemma_stored_answer_is_fresh(
    c: DnsCache,
    key: Seq<char>,
    qtype: u16,
    response: Seq<u8>,
    inserted_at: u64,
    ttl: u64,
    now: u64,
)
    requires
        c.stores(key, qtype, response, inserted_at, ttl),
        now - inserted_at < ttl,
    ensures
        c.has_fresh(key, qtype, now),
{
    let i = choose|i: int|
        0 <= i < c.entries@.len() && slot_key_is(#[trigger] c.entries@[i], key, qtype)
            && c.entries@[i].response@ == response && c.entries@[i].inserted_at == inserted_at
            && c.entries@[i].ttl == ttl;
    assert(slot_fresh(c.entries@[i], now));
}

/// How many entries of a table are valid at time `now`.
pub open spec fn fresh_count(entries: Seq<CacheSlot>, now: u64) -> int
    decreases entries.len(),
{
    if entries.len() == 0 {
        0
    } else {
        fresh_count(entries.drop_last(), now) + (if slot_fresh(entries.last(), now) {
            1int
        } else {
            0int
        })
    }
}

/// Extending a prefix by one element adjusts its count of valid entries.
proof fn lemma_fresh_count_extend(entries: Seq<CacheSlot>, j: int, now: u64)
    requires
        0 <= j < entries.len(),
    ensures
        fresh_count(entries.subrange(0, j + 1), now) == fresh_count(entries.subrange(0, j), now) + (
        if slot_fresh(entries[j], now) {
            1int
        } else {
            0int
        }),
{
    let a = entries.subrange(0, j + 1);
    assert(a.drop_last() =~= entries.subrange(0, j));
    assert(a.last() == entries[j]);
}

/// Copy a byte vector.
fn clone_bytes(v: &Vec<u8>) -> (r: Vec<u8>)
    ensures
        r@ == v@,
{
    let mut out: Vec<u8> = Vec::new();
    let n = v.len();
    let mut i: usize = 0;
    while i < n
        invariant
            n == v@.len(),
            i <= n,
            out@ == v@.subrange(0, i as int),
        decreases n - i,
    {
        out.push(v[i]);
        proof {
            assert(out@ =~= v@.subrange(0, i + 1));
        }
        i += 1;
    }
    proof {
        assert(v@.subrange(0, n as int) =~= v@);
    }
    out
}

} // verus!
