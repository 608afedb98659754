//! The seams of a roll to the cluster: the commands to the nodes, the write freeze and
//! the pauses.
//!
//! They can be reached only by the methods here. Each of the actions of the fence makes
//! one call and notes it, so that what is noted is what was done, in that order.
use vstd::prelude::*;
use vstd::string::*;
use crate::cluster_observe::{slave_lag_for, NodeObservation, QuorumObservation};
use crate::cluster_upgrade_driver::{event_asks, event_done, fence_asks, fence_done,
    lemma_fence_asks, lemma_one_ask, listed_lag, members_seen, opt_int, poll_event,
    ActuationTarget, ClusterClient, ClusterUpgradeError, FenceEvent, PauseError, PauseTarget,
    Pauser, Sighting, Sleeper};

verus! {

/// The seams of a roll to the cluster.
pub struct Seams<C: ClusterClient, P: Pauser, S: Sleeper> {
    client: C,
    pauser: P,
    sleeper: S,
    history: Ghost<Seq<FenceEvent>>,
    rests: Ghost<Seq<u64>>,
}

impl<C: ClusterClient, P: Pauser, S: Sleeper> Seams<C, P, S> {
    /// The commands to the nodes.
    pub closed spec fn client(self) -> C {
        self.client
    }

    /// The write freeze.
    pub closed spec fn pauser(self) -> P {
        self.pauser
    }

    /// The pauses.
    pub closed spec fn sleeper(self) -> S {
        self.sleeper
    }

    /// The actions of the fence so far.
    pub closed spec fn history(self) -> Seq<FenceEvent> {
        self.history@
    }

    /// The pauses outside the fence so far, in milliseconds.
    pub closed spec fn rests(self) -> Seq<u64> {
        self.rests@
    }

    /// Whether the freeze and the pauses go the same way.
    pub open spec fn same_ways(self, other: Self) -> bool {
        &&& self.pauser() == other.pauser()
        &&& self.sleeper() == other.sleeper()
    }

    /// Whether these seams differ from others only by one more question to the nodes.
    pub open spec fn inquired_from(self, pre: Self, question: Sighting) -> bool {
        &&& self.same_ways(pre)
        &&& self.history() == pre.history()
        &&& self.rests() == pre.rests()
        &&& self.client().asked() == pre.client().asked().push(question)
    }

    /// Whether these seams differ from others only by these actions of the fence, and
    /// these took place: the nodes were asked what they ask, and the freezes, releases
    /// and pauses were called for.
    pub open spec fn acted_from(self, pre: Self, fence: Seq<FenceEvent>) -> bool {
        &&& self.same_ways(pre)
        &&& self.history() == pre.history() + fence
        &&& self.rests() == pre.rests()
        &&& self.client().asked() == pre.client().asked() + fence_asks(fence)
        &&& fence_done(pre.pauser(), pre.sleeper(), fence)
    }

    /// Whether these seams differ from others only by one more pause outside the fence,
    /// and the sleeper was called for it.
    pub open spec fn rested_from(self, pre: Self, millis: u64) -> bool {
        &&& self.same_ways(pre)
        &&& self.history() == pre.history()
        &&& self.rests() == pre.rests().push(millis)
        &&& self.client() == pre.client()
        &&& call_ensures(S::sleep, (&pre.sleeper(), millis), ())
    }

    /// Actions that follow on actions.
    pub(crate) proof fn lemma_acted(
        pre: Self,
        mid: Self,
        post: Self,
        a: Seq<FenceEvent>,
        b: Seq<FenceEvent>,
    )
        requires
            mid.acted_from(pre, a),
            post.acted_from(mid, b),
        ensures
            post.acted_from(pre, a + b),
    {
        lemma_fence_asks(a, b);
        assert(post.history() =~= pre.history() + (a + b));
        assert(post.client().asked() =~= pre.client().asked() + fence_asks(a + b));
        let both = a + b;
        assert forall|k: int| 0 <= k < both.len() implies event_done(
            pre.pauser(),
            pre.sleeper(),
            #[trigger] both[k],
        ) by {
            if k < a.len() {
                assert(both[k] == a[k]);
            } else {
                assert(both[k] == b[k - a.len()]);
            }
        }
    }

    proof fn lemma_acted_once(pre: Self, post: Self, e: FenceEvent)
        requires
            post.same_ways(pre),
            post.rests() == pre.rests(),
            post.history() == pre.history().push(e),
            post.client().asked() == pre.client().asked() + event_asks(e),
            event_done(pre.pauser(), pre.sleeper(), e),
        ensures
            post.acted_from(pre, seq![e]),
    {
        lemma_one_ask(e);
        assert(post.history() =~= pre.history() + seq![e]);
    }

    /// Seams over which nothing was done yet.
    pub fn new(client: C, pauser: P, sleeper: S) -> (r: Self)
        ensures
            r.client() == client,
            r.pauser() == pauser,
            r.sleeper() == sleeper,
            r.history().len() == 0,
            r.rests().len() == 0,
    {
        Seams {
            client,
            pauser,
            sleeper,
            history: Ghost(Seq::empty()),
            rests: Ghost(Seq::empty()),
        }
    }

    /// The member ids that `seed` knows.
    pub(crate) fn discover_members(&mut self, seed: &ActuationTarget) -> (r: Result<
        Vec<String>,
        ClusterUpgradeError,
    >)
        ensures
            final(self).inquired_from(
                *old(self),
                Sighting::Members { of: *seed, answer: members_seen(r) },
            ),
    {
        self.client.discover_members(seed)
    }

    /// What `node` reports of itself.
    pub(crate) fn observe_node(&mut self, node: &ActuationTarget) -> (r: Result<
        NodeObservation,
        ClusterUpgradeError,
    >)
        ensures
            final(self).inquired_from(*old(self), Sighting::Node { of: *node, answer: r }),
    {
        self.client.observe_node(node)
    }

    /// The quorum signal that `seed` gives.
    pub(crate) fn observe_quorum(&mut self, seed: &ActuationTarget) -> (r: Result<
        QuorumObservation,
        ClusterUpgradeError,
    >)
        ensures
            final(self).inquired_from(*old(self), Sighting::Quorum { of: *seed, answer: r }),
    {
        self.client.observe_quorum(seed)
    }

    /// Pauses for `millis` milliseconds.
    pub(crate) fn rest(&mut self, millis: u64)
        ensures
            final(self).rested_from(*old(self), millis),
    {
        self.sleeper.sleep(millis);
        self.rests = Ghost(self.rests@.push(millis));
    }

    /// Sets the freeze.
    pub(crate) fn freeze_writes(&mut self, target: &PauseTarget) -> (r: Result<(), PauseError>)
        ensures
            final(self).acted_from(
                *old(self),
                seq![FenceEvent::Freeze { to: target@, answer: r }],
            ),
    {
        let answer = self.pauser.freeze(target);
        let ghost e = FenceEvent::Freeze { to: target@, answer };
        self.history = Ghost(self.history@.push(e));
        proof {
            assert(self.client.asked() + event_asks(e) =~= self.client.asked());
            assert(call_ensures(P::freeze, (&self.pauser, target), answer));
            Self::lemma_acted_once(*old(self), *self, e);
        }
        answer
    }

    /// Releases the freeze. A failure to do so changes nothing: the freeze ends by itself.
    pub(crate) fn release_writes(&mut self, target: &PauseTarget)
        ensures
            final(self).acted_from(*old(self), seq![FenceEvent::Release { to: target@ }]),
    {
        let answer = self.pauser.unfreeze(target);
        let ghost e = FenceEvent::Release { to: target@ };
        self.history = Ghost(self.history@.push(e));
        proof {
            assert(self.client.asked() + event_asks(e) =~= self.client.asked());
            assert(call_ensures(P::unfreeze, (&self.pauser, target), answer));
            Self::lemma_acted_once(*old(self), *self, e);
        }
    }

    /// Commands the failover.
    pub(crate) fn fail_over(&mut self, candidate: &ActuationTarget) -> (r: Result<
        (),
        ClusterUpgradeError,
    >)
        ensures
            final(self).acted_from(
                *old(self),
                seq![FenceEvent::Failover { candidate: *candidate, answer: r }],
            ),
    {
        let answer = self.client.cluster_failover(candidate);
        let ghost e = FenceEvent::Failover { candidate: *candidate, answer };
        self.history = Ghost(self.history@.push(e));
        proof {
            assert(self.client.asked() =~= old(self).client.asked() + event_asks(e));
            Self::lemma_acted_once(*old(self), *self, e);
        }
        answer
    }

    /// Reads the lag that the old primary lists for the candidate, and pauses for
    /// `delay` milliseconds unless it is zero. The answer of the old primary comes back
    /// for the proofs.
    pub(crate) fn poll_lag(
        &mut self,
        old_primary: &ActuationTarget,
        candidate: &ActuationTarget,
        delay: u64,
    ) -> (r: Result<(Option<u64>, Ghost<NodeObservation>), ClusterUpgradeError>)
        ensures
            match r {
                Ok((lag, obs)) => opt_int(lag) == listed_lag(obs@, *candidate)
                    && final(self).acted_from(
                    *old(self),
                    seq![poll_event(*old_primary, *candidate, obs@, delay)],
                ),
                Err(error) => final(self).acted_from(
                    *old(self),
                    seq![FenceEvent::PollFailed { of: *old_primary, error }],
                ),
            },
    {
        match self.client.observe_node(old_primary) {
            Ok(obs) => {
                let lag = slave_lag_for(obs.slaves.as_slice(), candidate.resp_addr.as_str());
                let ghost e = poll_event(*old_primary, *candidate, obs, delay);
                match lag {
                    Some(0) => {},
                    _ => {
                        self.sleeper.sleep(delay);
                    },
                }
                self.history = Ghost(self.history@.push(e));
                proof {
                    assert(self.client.asked() =~= old(self).client.asked() + event_asks(e));
                    Self::lemma_acted_once(*old(self), *self, e);
                }
                Ok((lag, Ghost(obs)))
            },
            Err(error) => {
                let ghost e = FenceEvent::PollFailed { of: *old_primary, error };
                self.history = Ghost(self.history@.push(e));
                proof {
                    assert(self.client.asked() =~= old(self).client.asked() + event_asks(e));
                    Self::lemma_acted_once(*old(self), *self, e);
                }
                Err(error)
            },
        }
    }
}

} // verus!
