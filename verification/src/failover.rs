//! Sequential upstream failover: upstreams are tried in configuration
//! order, stopping at the first success; when every attempt fails, the
//! error of the last attempt is surfaced.

use vstd::prelude::*;

use crate::config::{DnsProtocol, ZoneConfig};

verus! {

/// The DNS SERVFAIL response code, the default error of an attempt.
pub const RCODE_SERVFAIL: u16 = 2;

/// The outcome of one upstream attempt: an answer, or an error response
/// code.
#[derive(Debug, Clone, Copy, PartialEq, Eq, Structural)]
pub enum Attempt {
    Answered,
    Failed(u16),
}

/// What the client is told after failover ends: the index of the answering
/// upstream, or the error code of the last attempt.
#[derive(Debug, Clone, Copy, PartialEq, Eq, Structural)]
pub enum Verdict {
    Success(usize),
    Fail(u16),
}

/// The index of the first successful attempt, if any.
pub open spec fn spec_first_success(outcomes: Seq<Attempt>) -> Option<int>
    decreases outcomes.len(),
{
    if outcomes.len() == 0 {
        None
    } else if outcomes.first() is Answered {
        Some(0int)
    } else {
        match spec_first_success(outcomes.drop_first()) {
            Some(i) => Some(i + 1),
            None => None,
        }
    }
}

/// The verdict for a complete outcome list: the first success wins;
/// otherwise the last error, or SERVFAIL when nothing was tried.
pub open spec fn spec_failover_verdict(outcomes: Seq<Attempt>) -> Verdict {
    match spec_first_success(outcomes) {
        Some(i) => Verdict::Success(i as usize),
        None => if outcomes.len() == 0 {
            Verdict::Fail(RCODE_SERVFAIL)
        } else {
            match outcomes.last() {
                Attempt::Answered => Verdict::Fail(RCODE_SERVFAIL),
                Attempt::Failed(rc) => Verdict::Fail(rc),
            }
        },
    }
}

/// The failover discipline as a state machine: `current` names the next
/// upstream to contact, `record` feeds an attempt's outcome back.
pub struct Failover {
    pub total: usize,
    pub next: usize,
    pub last_err: u16,
    pub answered_by: Option<usize>,
}

impl Failover {
    pub open spec fn wf(self) -> bool {
        &&& self.next <= self.total
        &&& (match self.answered_by {
            Some(i) => i < self.total,
            None => true,
        })
    }

    pub fn new(total: usize) -> (r: Self)
        ensures
            r.wf(),
            r.total == total,
            r.next == 0,
            r.last_err == RCODE_SERVFAIL,
            r.answered_by is None,
    {
        Failover { total, next: 0, last_err: RCODE_SERVFAIL, answered_by: None }
    }

    /// The next upstream to try, in configuration order; nothing once an
    /// upstream answered or all are exhausted.
    pub fn current(&self) -> (r: Option<usize>)
        ensures
            r == (if self.answered_by is None && self.next < self.total {
                Some(self.next)
            } else {
                None::<usize>
            }),
    {
        if self.answered_by.is_none() && self.next < self.total {
            Some(self.next)
        } else {
            None
        }
    }

    /// Record that the current upstream failed with a response code; the
    /// walk moves to the next upstream.
    pub fn record_failure(&mut self, rcode: u16)
        requires
            old(self).wf(),
            old(self).answered_by is None,
            old(self).next < old(self).total,
        ensures
            final(self).wf(),
            final(self).total == old(self).total,
            final(self).next == old(self).next + 1,
            final(self).last_err == rcode,
            final(self).answered_by is None,
    {
        self.last_err = rcode;
        self.next = self.next + 1;
    }

    /// Record that the current upstream answered; the walk stops.
    pub fn record_success(&mut self)
        requires
            old(self).wf(),
            old(self).answered_by is None,
            old(self).next < old(self).total,
        ensures
            final(self).wf(),
            final(self).total == old(self).total,
            final(self).next == old(self).next,
            final(self).last_err == old(self).last_err,
            final(self).answered_by == Some(old(self).next),
    {
        self.answered_by = Some(self.next);
    }

    /// What the client is told once `current` returns nothing.
    pub fn verdict(&self) -> (r: Verdict)
        ensures
            r == (match self.answered_by {
                Some(i) => Verdict::Success(i),
                None => Verdict::Fail(self.last_err),
            }),
    {
        match self.answered_by {
            Some(i) => Verdict::Success(i),
            None => Verdict::Fail(self.last_err),
        }
    }
}

/// Drive the failover machine over a complete list of attempt outcomes.
/// The verdict is the first success, or the last error: upstreams are
/// visited in order and none is contacted after the first answer.
pub fn run_failover(outcomes: &Vec<Attempt>) -> (r: Verdict)
    ensures
        r == spec_failover_verdict(outcomes@),
{
    let n = outcomes.len();
    let mut st = Failover::new(n);
    proof {
        assert(outcomes@.skip(0) =~= outcomes@);
        assert(outcomes@.subrange(0, 0) =~= Seq::<Attempt>::empty());
    }
    loop
        invariant
            st.wf(),
            st.total == n,
            n == outcomes@.len(),
            st.answered_by is None ==> spec_first_success(outcomes@.subrange(0, st.next as int))
                is None,
            st.answered_by is None ==> spec_first_success(outcomes@) == (match spec_first_success(
                outcomes@.skip(st.next as int),
            ) {
                Some(i) => Some(i + st.next as int),
                None => None::<int>,
            }),
            st.answered_by is None && st.next > 0 ==> st.last_err == (match outcomes@[st.next
                - 1] {
                Attempt::Answered => RCODE_SERVFAIL,
                Attempt::Failed(rc) => rc,
            }),
            st.answered_by is None && st.next == 0 ==> st.last_err == RCODE_SERVFAIL,
            match st.answered_by {
                Some(i) => spec_first_success(outcomes@) == Some(i as int),
                None => true,
            },
        ensures
            st.wf(),
            st.total == n,
            n == outcomes@.len(),
            st.answered_by is Some || st.next >= st.total,
            st.answered_by is None ==> spec_first_success(outcomes@.subrange(0, st.next as int))
                is None,
            st.answered_by is None && st.next > 0 ==> st.last_err == (match outcomes@[st.next
                - 1] {
                Attempt::Answered => RCODE_SERVFAIL,
                Attempt::Failed(rc) => rc,
            }),
            st.answered_by is None && st.next == 0 ==> st.last_err == RCODE_SERVFAIL,
            match st.answered_by {
                Some(i) => spec_first_success(outcomes@) == Some(i as int),
                None => true,
            },
        decreases st.total - st.next + (if st.answered_by is None {
            1int
        } else {
            0int
        }),
    {
        match st.current() {
            None => {
                break ;
            },
            Some(i) => {
                let ghost rest = outcomes@.skip(i as int);
                proof {
                    assert(rest.first() == outcomes@[i as int]);
                    assert(rest.drop_first() =~= outcomes@.skip(i + 1));
                }
                match outcomes[i] {
                    Attempt::Answered => {
                        st.record_success();
                        proof {
                            assert(spec_first_success(rest) == Some(0int));
                        }
                    },
                    Attempt::Failed(rc) => {
                        st.record_failure(rc);
                        proof {
                            let pre = outcomes@.subrange(0, i as int);
                            let ext = outcomes@.subrange(0, i + 1);
                            lemma_first_success_extend(outcomes@, i as int);
                        }
                    },
                }
            },
        }
    }
    proof {
        if st.answered_by is None {
            assert(st.next == st.total);
            assert(outcomes@.subrange(0, n as int) =~= outcomes@);
            if n > 0 {
                assert(outcomes@[n - 1] == outcomes@.last());
            }
        }
    }
    st.verdict()
}

/// Extending a prefix with a failed attempt leaves it without a success.
proof fn lemma_first_success_extend(outcomes: Seq<Attempt>, i: int)
    requires
        0 <= i < outcomes.len(),
        !(outcomes[i] is Answered),
        spec_first_success(outcomes.subrange(0, i)) is None,
    ensures
        spec_first_success(outcomes.subrange(0, i + 1)) is None,
    decreases i,
{
    let a = outcomes.subrange(0, i + 1);
    let b = outcomes.subrange(0, i);
    if i == 0 {
        assert(a.first() == outcomes[0]);
        assert(a.drop_first() =~= Seq::<Attempt>::empty());
    } else {
        assert(a.first() == outcomes[0]);
        assert(b.first() == outcomes[0]);
        if outcomes[0] is Answered {
            assert(spec_first_success(b) is Some);
        } else {
            let tail = outcomes.drop_first();
            assert(a.drop_first() =~= tail.subrange(0, i));
            assert(b.drop_first() =~= tail.subrange(0, i - 1));
            assert(spec_first_success(b.drop_first()) is None);
            assert(spec_first_success(tail.subrange(0, i - 1)) is None);
            assert(tail[i - 1] == outcomes[i]);
            lemma_first_success_extend(tail, i - 1);
            assert(spec_first_success(tail.subrange(0, i)) is None);
            assert(spec_first_success(a.drop_first()) is None);
        }
    }
}

/// Which upstreams answer a query for a zone match: the zone's own servers
/// and protocol when it has servers, else the default upstreams over UDP.
pub fn select_upstreams(zone: Option<&ZoneConfig>) -> (r: (bool, DnsProtocol))
    ensures
        r.0 == (match zone {
            Some(z) => z.dns_servers@.len() > 0,
            None => false,
        }),
        r.1 == (match zone {
            Some(z) => if z.dns_servers@.len() > 0 {
                z.dns_protocol
            } else {
                DnsProtocol::Udp
            },
            None => DnsProtocol::Udp,
        }),
{
    match zone {
        Some(z) => {
            if z.dns_servers.len() > 0 {
                (true, z.dns_protocol)
            } else {
                (false, DnsProtocol::Udp)
            }
        },
        None => (false, DnsProtocol::Udp),
    }
}

} // verus!
