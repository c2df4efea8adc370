//! The decisions of an iterative `get_peers` lookup: which endpoints
//! the next round contacts, which hosts were already asked, when the
//! rounds stop, and what was found.  The datagrams themselves travel
//! through whatever transport the caller runs; only the bookkeeping
//! lives here.
use vstd::prelude::*;

verus! {

use crate::url::Url;
use crate::utils::eq_str;

/// How many rounds a lookup runs at most.
pub const MAX_LOOKUP_ROUNDS: u8 = 8;

/// The host texts of the queried list.
pub open spec fn qviews(qs: Seq<String>) -> Seq<Seq<char>> {
    Seq::new(qs.len(), |i: int| qs[i]@)
}

/// Whether a host text is among the queried hosts.
pub open spec fn has_host(qs: Seq<Seq<char>>, h: Seq<char>) -> bool {
    exists|i: int| 0 <= i < qs.len() && (#[trigger] qs[i]) == h
}

/// The endpoints one round sends to, last working entry first: each
/// entry whose host was not yet queried, with the hosts of earlier
/// picks counting as queried at once, so one round never asks a host
/// twice.
pub open spec fn round_out(ws: Seq<Url>, qs: Seq<Seq<char>>) -> Seq<Url>
    decreases ws.len(),
{
    if ws.len() == 0 {
        Seq::empty()
    } else if has_host(qs, ws.last().host@) {
        round_out(ws.drop_last(), qs)
    } else {
        seq![ws.last()] + round_out(ws.drop_last(), qs.push(ws.last().host@))
    }
}

/// The queried hosts after one round over `ws`.
pub open spec fn round_qs(ws: Seq<Url>, qs: Seq<Seq<char>>) -> Seq<Seq<char>>
    decreases ws.len(),
{
    if ws.len() == 0 {
        qs
    } else if has_host(qs, ws.last().host@) {
        round_qs(ws.drop_last(), qs)
    } else {
        round_qs(ws.drop_last(), qs.push(ws.last().host@))
    }
}

/// The candidates whose hosts were not yet queried, last first.
pub open spec fn fresh_of(cs: Seq<Url>, qs: Seq<Seq<char>>) -> Seq<Url>
    decreases cs.len(),
{
    if cs.len() == 0 {
        Seq::empty()
    } else if has_host(qs, cs.last().host@) {
        fresh_of(cs.drop_last(), qs)
    } else {
        seq![cs.last()] + fresh_of(cs.drop_last(), qs)
    }
}

/// One lookup in flight: its target, the hosts already contacted, the
/// endpoints the next round will contact, the peers collected, and how
/// many rounds have run.
pub struct LookupState {
    pub target: [u8; 20],
    pub queried: Vec<String>,
    pub working: Vec<Url>,
    pub found: Vec<Url>,
    pub rounds: u8,
}

impl LookupState {
    /// A lookup aimed at `target`, bootstrapped from the given
    /// endpoints.
    pub fn new(target: [u8; 20], bootstrap: Vec<Url>) -> (r: LookupState)
        ensures
            r.target@ == target@,
            r.queried@.len() == 0,
            r.working@ == bootstrap@,
            r.found@.len() == 0,
            r.rounds == 0,
    {
        LookupState { target, queried: Vec::new(), working: bootstrap, found: Vec::new(), rounds: 0 }
    }

    /// Whether another round should run: the cap is not reached and no
    /// peers were found yet.
    pub fn should_continue(&self) -> (r: bool)
        ensures
            r == (self.rounds < MAX_LOOKUP_ROUNDS && self.found@.len() == 0),
    {
        self.rounds < MAX_LOOKUP_ROUNDS && self.found.len() == 0
    }

    /// Drain the working list into this round's targets: every endpoint
    /// whose host was not asked before is handed out exactly once and
    /// its host marked as queried.
    pub fn begin_round(&mut self) -> (r: Vec<Url>)
        ensures
            r@ == round_out(old(self).working@, qviews(old(self).queried@)),
            qviews(final(self).queried@) == round_qs(
                old(self).working@,
                qviews(old(self).queried@),
            ),
            final(self).working@.len() == 0,
            final(self).found@ == old(self).found@,
            final(self).rounds == old(self).rounds,
            final(self).target@ == old(self).target@,
    {
        let ghost ws0 = self.working@;
        let ghost qs0 = qviews(self.queried@);
        let mut out: Vec<Url> = Vec::new();
        loop
            invariant
                ws0 == old(self).working@,
                qs0 == qviews(old(self).queried@),
                round_out(ws0, qs0) == out@ + round_out(self.working@, qviews(self.queried@)),
                round_qs(ws0, qs0) == round_qs(self.working@, qviews(self.queried@)),
                self.found@ == old(self).found@,
                self.rounds == old(self).rounds,
                self.target@ == old(self).target@,
            decreases self.working@.len(),
        {
            let ghost ws_before = self.working@;
            let u = match self.working.pop() {
                Some(u) => u,
                None => {
                    proof {
                        assert(out@ + round_out(self.working@, qviews(self.queried@)) =~= out@);
                        assert(round_qs(self.working@, qviews(self.queried@)) == qviews(
                            self.queried@,
                        ));
                    }
                    return out;
                },
            };
            let asked = self.contains_host(&u.host);
            proof {
                assert(ws_before.last() == u);
                assert(ws_before.drop_last() =~= self.working@);
            }
            if asked {
                proof {
                    assert(round_out(ws_before, qviews(self.queried@)) == round_out(
                        self.working@,
                        qviews(self.queried@),
                    ));
                    assert(round_qs(ws_before, qviews(self.queried@)) == round_qs(
                        self.working@,
                        qviews(self.queried@),
                    ));
                }
            } else {
                let ghost qs_before = qviews(self.queried@);
                let host_copy = u.host.clone();
                self.queried.push(host_copy);
                proof {
                    assert(qviews(self.queried@) =~= qs_before.push(u.host@));
                    assert(round_out(ws_before, qs_before) == seq![u] + round_out(
                        self.working@,
                        qs_before.push(u.host@),
                    ));
                    assert(round_qs(ws_before, qs_before) == round_qs(
                        self.working@,
                        qs_before.push(u.host@),
                    ));
                    assert(out@.push(u) + round_out(self.working@, qviews(self.queried@)) =~= out@
                        + (seq![u] + round_out(self.working@, qviews(self.queried@))));
                }
                out.push(u);
            }
        }
    }

    /// Whether `host` was already queried.
    fn contains_host(&self, host: &String) -> (r: bool)
        ensures
            r == has_host(qviews(self.queried@), host@),
    {
        let mut i: usize = 0;
        while i < self.queried.len()
            invariant
                i <= self.queried@.len(),
                forall|j: int| 0 <= j < i ==> (#[trigger] self.queried@[j])@ != host@,
            decreases self.queried@.len() - i,
        {
            if eq_str(self.queried[i].as_str(), host.as_str()) {
                proof {
                    assert(qviews(self.queried@)[i as int] == host@);
                }
                return true;
            }
            i = i + 1;
        }
        proof {
            assert forall|j: int|
                0 <= j < qviews(self.queried@).len() implies qviews(self.queried@)[j] != host@ by {
                assert(qviews(self.queried@)[j] == self.queried@[j]@);
            }
        }
        false
    }

    /// Record peers a node answered with.
    pub fn on_values(&mut self, peers: Vec<Url>)
        ensures
            final(self).found@ == old(self).found@ + peers@,
            final(self).working@ == old(self).working@,
            final(self).queried@ == old(self).queried@,
            final(self).rounds == old(self).rounds,
            final(self).target@ == old(self).target@,
    {
        let mut peers = peers;
        self.found.append(&mut peers);
    }

    /// Record endpoints of closer nodes a node answered with: the next
    /// round will contact them.
    pub fn on_nodes(&mut self, endpoints: Vec<Url>)
        ensures
            final(self).working@ == old(self).working@ + endpoints@,
            final(self).found@ == old(self).found@,
            final(self).queried@ == old(self).queried@,
            final(self).rounds == old(self).rounds,
            final(self).target@ == old(self).target@,
    {
        let mut endpoints = endpoints;
        self.working.append(&mut endpoints);
    }

    /// Seed an empty next round from candidate endpoints (the closest
    /// known nodes): only hosts not yet queried are taken.
    pub fn refill(&mut self, candidates: Vec<Url>)
        ensures
            final(self).working@ == old(self).working@ + fresh_of(
                candidates@,
                qviews(old(self).queried@),
            ),
            final(self).found@ == old(self).found@,
            final(self).queried@ == old(self).queried@,
            final(self).rounds == old(self).rounds,
            final(self).target@ == old(self).target@,
    {
        let ghost cs0 = candidates@;
        let mut candidates = candidates;
        let ghost base = self.working@;
        let mut picked: Vec<Url> = Vec::new();
        while candidates.len() > 0
            invariant
                base == old(self).working@,
                self.queried@ == old(self).queried@,
                self.working@ == base,
                self.found@ == old(self).found@,
                self.rounds == old(self).rounds,
                self.target@ == old(self).target@,
                fresh_of(cs0, qviews(old(self).queried@)) == picked@ + fresh_of(
                    candidates@,
                    qviews(old(self).queried@),
                ),
            decreases candidates@.len(),
        {
            let ghost cs_before = candidates@;
            let u = match candidates.pop() {
                Some(u) => u,
                None => {
                    proof {
                        assert(false);
                    }
                    return ;
                },
            };
            let asked = self.contains_host(&u.host);
            proof {
                assert(cs_before.last() == u);
                assert(cs_before.drop_last() =~= candidates@);
            }
            if !asked {
                proof {
                    assert(picked@.push(u) + fresh_of(candidates@, qviews(self.queried@)) =~=
                    picked@ + (seq![u] + fresh_of(candidates@, qviews(self.queried@))));
                }
                picked.push(u);
            }
        }
        proof {
            assert(picked@ + fresh_of(candidates@, qviews(self.queried@)) =~= picked@);
        }
        let mut picked = picked;
        self.working.append(&mut picked);
    }

    /// Close a round.
    pub fn end_round(&mut self)
        ensures
            final(self).rounds == (if old(self).rounds < MAX_LOOKUP_ROUNDS {
                old(self).rounds + 1
            } else {
                old(self).rounds as int
            }),
            final(self).working@ == old(self).working@,
            final(self).queried@ == old(self).queried@,
            final(self).found@ == old(self).found@,
            final(self).target@ == old(self).target@,
    {
        if self.rounds < MAX_LOOKUP_ROUNDS {
            self.rounds = self.rounds + 1;
        }
    }
}

} // verus!
