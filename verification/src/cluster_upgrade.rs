//! What one observation of a cluster says about a rolling upgrade: which replicas
//! are still on the old version, which one may be promoted, how far the roll is.
//!
//! One shard is rolled at a time: a primary and the replicas of its slots.
use vstd::prelude::*;
use crate::repl::{promotion_of, safe_to_promote, CandidateReplica, LinkStatus, PromotionSafety,
    ReplicaLag};
use crate::text::same_str;

verus! {

/// A node's role in the shard.
#[derive(Debug, Clone, Copy, PartialEq, Eq, Structural)]
pub enum NodeRole {
    /// The primary.
    Master,
    /// A replica of the primary.
    Replica,
}

/// One node as it was observed.
#[derive(Debug, Clone)]
pub struct NodeView {
    /// The announce id.
    pub id: String,
    /// The version that the node reports.
    pub version: String,
    /// The role.
    pub role: NodeRole,
    /// A replica's link to its master.
    pub link: LinkStatus,
    /// A replica's lag behind its master.
    pub lag: Option<ReplicaLag>,
}

impl NodeView {
    /// Whether the node runs the target version.
    pub open spec fn on_target(self, target: Seq<char>) -> bool {
        self.version@ == target
    }

    /// Whether the node is attached with a known lag within the bound.
    pub open spec fn caught_up(self, max_lag: u64) -> bool {
        self.link is Up && self.lag is Some && self.lag->0.within(max_lag)
    }

    /// Whether the node may be promoted.
    pub open spec fn promotable(self, target: Seq<char>, max_lag: u64) -> bool {
        self.role is Replica && self.on_target(target) && self.caught_up(max_lag)
    }

    /// The lag by which candidates are compared; an unknown lag is the largest.
    pub open spec fn lag_key(self) -> u64 {
        match self.lag {
            Some(l) => match l.writes {
                Some(n) => n,
                None => u64::MAX,
            },
            None => u64::MAX,
        }
    }

    /// Whether the node is a replica on another version than the target.
    pub open spec fn to_upgrade(self, target: Seq<char>) -> bool {
        self.role is Replica && !self.on_target(target)
    }

    /// Whether the node runs the target version.
    pub fn is_upgraded(&self, target_version: &str) -> (r: bool)
        ensures
            r == self.on_target(target_version@),
    {
        same_str(self.version.as_str(), target_version)
    }

    /// Whether the node is attached and in sync.
    pub fn is_caught_up(&self, max_lag: u64) -> (r: bool)
        ensures
            r == self.caught_up(max_lag),
    {
        match self.lag {
            Some(l) => self.link.is_up() && l.in_sync(max_lag),
            None => false,
        }
    }

    /// Whether the node may be promoted: an upgraded replica, attached and in sync.
    pub fn is_promotable(&self, target_version: &str, max_lag: u64) -> (r: bool)
        ensures
            r == self.promotable(target_version@, max_lag),
    {
        self.role == NodeRole::Replica && self.is_upgraded(target_version) && self.is_caught_up(
            max_lag,
        )
    }

    fn key(&self) -> (r: u64)
        ensures
            r == self.lag_key(),
    {
        match self.lag {
            Some(l) => match l.lag() {
                Some(n) => n,
                None => u64::MAX,
            },
            None => u64::MAX,
        }
    }
}

/// One observation of the shard.
#[derive(Debug, Clone)]
pub struct ClusterView {
    /// The nodes, in inventory order.
    pub nodes: Vec<NodeView>,
    /// The version that the shard is rolled to.
    pub target_version: String,
    /// The largest lag at which a replica counts as in sync.
    pub max_lag: u64,
    /// Whether the configuration plane can commit a promotion.
    pub raft_quorum: bool,
    /// The id of the node that was the primary before the roll.
    pub old_primary_id: Option<String>,
}

/// The number of replicas among the first `n` nodes that are still to be upgraded.
pub open spec fn to_upgrade_count(nodes: Seq<NodeView>, target: Seq<char>, n: nat) -> nat
    decreases n,
{
    if n == 0 {
        0
    } else {
        to_upgrade_count(nodes, target, (n - 1) as nat) + (if nodes[n - 1].to_upgrade(target) {
            1nat
        } else {
            0nat
        })
    }
}

/// No more nodes are to be upgraded than there are.
pub proof fn lemma_count_bound(nodes: Seq<NodeView>, target: Seq<char>, n: nat)
    ensures
        to_upgrade_count(nodes, target, n) <= n,
    decreases n,
{
    if n > 0 {
        lemma_count_bound(nodes, target, (n - 1) as nat);
    }
}

/// The best promotion candidate among the first `n` nodes: the promotable node
/// with the least lag, the first of them where several have it.
pub open spec fn best_candidate(nodes: Seq<NodeView>, target: Seq<char>, max_lag: u64, n: nat) -> Option<
    int,
>
    decreases n,
{
    if n == 0 {
        None
    } else {
        let rest = best_candidate(nodes, target, max_lag, (n - 1) as nat);
        if !nodes[n - 1].promotable(target, max_lag) {
            rest
        } else {
            match rest {
                Some(b) => if nodes[n - 1].lag_key() < nodes[b].lag_key() {
                    Some(n - 1)
                } else {
                    rest
                },
                None => Some(n - 1),
            }
        }
    }
}

/// A best candidate is promotable, no promotable node has a smaller lag, and none
/// before it has the same lag. Without one no node is promotable.
pub proof fn lemma_best_candidate(nodes: Seq<NodeView>, target: Seq<char>, max_lag: u64, n: nat)
    requires
        n <= nodes.len(),
    ensures
        match best_candidate(nodes, target, max_lag, n) {
            Some(b) => {
                &&& 0 <= b < n
                &&& nodes[b].promotable(target, max_lag)
                &&& forall|j: int|
                    0 <= j < n && (#[trigger] nodes[j]).promotable(target, max_lag)
                        ==> nodes[b].lag_key() <= nodes[j].lag_key() && (nodes[j].lag_key()
                        == nodes[b].lag_key() ==> b <= j)
            },
            None => forall|j: int|
                0 <= j < n ==> !(#[trigger] nodes[j]).promotable(target, max_lag),
        },
    decreases n,
{
    if n > 0 {
        lemma_best_candidate(nodes, target, max_lag, (n - 1) as nat);
    }
}

impl ClusterView {
    /// The index of the node that would be promoted.
    pub open spec fn candidate(self) -> Option<int> {
        best_candidate(self.nodes@, self.target_version@, self.max_lag, self.nodes@.len())
    }

    /// Whether every node runs the target version.
    pub open spec fn all_on_target(self) -> bool {
        forall|i: int|
            0 <= i < self.nodes@.len() ==> (#[trigger] self.nodes@[i]).on_target(
                self.target_version@,
            )
    }

    /// Whether some upgraded replica is not back in sync.
    pub open spec fn catching_up(self) -> bool {
        exists|i: int|
            0 <= i < self.nodes@.len() && (#[trigger] self.nodes@[i]).role is Replica
                && self.nodes@[i].on_target(self.target_version@) && !self.nodes@[i].caught_up(
                self.max_lag,
            )
    }

    /// Whether the primary of before the roll is a replica.
    pub open spec fn demoted(self) -> bool {
        self.old_primary_id is Some && exists|i: int|
            0 <= i < self.nodes@.len() && (#[trigger] self.nodes@[i]).id@
                == self.old_primary_id->0@ && self.nodes@[i].role is Replica
    }

    /// Whether the primary of before the roll runs the target version.
    pub open spec fn old_on_target(self) -> bool {
        self.old_primary_id is Some && exists|i: int|
            0 <= i < self.nodes@.len() && (#[trigger] self.nodes@[i]).id@
                == self.old_primary_id->0@ && self.nodes@[i].on_target(self.target_version@)
    }

    /// The promotion decision for this observation.
    pub open spec fn promotion(self) -> PromotionSafety {
        match self.candidate() {
            Some(b) => promotion_of(
                CandidateReplica { link: self.nodes@[b].link, lag: self.nodes@[b].lag->0 },
                self.max_lag,
                self.raft_quorum,
            ),
            None => if !self.raft_quorum {
                PromotionSafety::NoQuorum
            } else {
                PromotionSafety::CandidateNotInSync
            },
        }
    }

    /// How many replicas are not on the target version yet.
    pub fn replicas_to_upgrade(&self) -> (r: usize)
        ensures
            r == to_upgrade_count(self.nodes@, self.target_version@, self.nodes@.len()),
    {
        let mut count: usize = 0;
        for i in 0..self.nodes.len()
            invariant
                count == to_upgrade_count(self.nodes@, self.target_version@, i as nat),
                count <= i,
        {
            if self.nodes[i].role == NodeRole::Replica && !self.nodes[i].is_upgraded(
                self.target_version.as_str(),
            ) {
                count = count + 1;
            }
        }
        count
    }

    /// Whether an upgraded replica is not back in sync: its link is down, or its lag
    /// is unknown or over the bound.
    pub fn replica_catching_up(&self) -> (r: bool)
        ensures
            r == self.catching_up(),
    {
        for i in 0..self.nodes.len()
            invariant
                forall|j: int|
                    0 <= j < i ==> !((#[trigger] self.nodes@[j]).role is Replica
                        && self.nodes@[j].on_target(self.target_version@)
                        && !self.nodes@[j].caught_up(self.max_lag)),
        {
            let n = &self.nodes[i];
            if n.role == NodeRole::Replica && n.is_upgraded(self.target_version.as_str())
                && !n.is_caught_up(self.max_lag) {
                return true;
            }
        }
        false
    }

    /// The node to promote: the upgraded in-sync replica with the least lag, the first
    /// of them where several have it.
    pub fn select_promote_candidate(&self) -> (r: Option<&NodeView>)
        ensures
            match r {
                Some(n) => self.candidate() is Some && *n == self.nodes@[self.candidate()->0],
                None => self.candidate() is None,
            },
    {
        let mut best: Option<usize> = None;
        for i in 0..self.nodes.len()
            invariant
                match best {
                    Some(b) => b < i && best_candidate(
                        self.nodes@,
                        self.target_version@,
                        self.max_lag,
                        i as nat,
                    ) == Some(b as int),
                    None => best_candidate(
                        self.nodes@,
                        self.target_version@,
                        self.max_lag,
                        i as nat,
                    ) is None,
                },
        {
            let n = &self.nodes[i];
            if n.is_promotable(self.target_version.as_str(), self.max_lag) {
                best =
                match best {
                    Some(b) => if n.key() < self.nodes[b].key() {
                        Some(i)
                    } else {
                        Some(b)
                    },
                    None => Some(i),
                };
            }
        }
        match best {
            Some(b) => Some(&self.nodes[b]),
            None => None,
        }
    }

    /// Whether a promotion may be committed now. Without a candidate the missing
    /// quorum is named first.
    pub fn promotion_safety(&self) -> (r: PromotionSafety)
        ensures
            r == self.promotion(),
    {
        proof {
            lemma_best_candidate(
                self.nodes@,
                self.target_version@,
                self.max_lag,
                self.nodes@.len(),
            );
        }
        match self.select_promote_candidate() {
            Some(c) => {
                let lag = match c.lag {
                    Some(l) => l,
                    None => ReplicaLag::unknown(),
                };
                safe_to_promote(
                    CandidateReplica { link: c.link, lag },
                    self.max_lag,
                    self.raft_quorum,
                )
            },
            None => if !self.raft_quorum {
                PromotionSafety::NoQuorum
            } else {
                PromotionSafety::CandidateNotInSync
            },
        }
    }

    /// Whether the promotion is committed: the primary of before the roll is a replica.
    pub fn primary_demoted(&self) -> (r: bool)
        ensures
            r == self.demoted(),
    {
        match &self.old_primary_id {
            Some(id) => {
                for i in 0..self.nodes.len()
                    invariant
                        self.old_primary_id == Some(*id),
                        forall|j: int|
                            0 <= j < i ==> !((#[trigger] self.nodes@[j]).id@ == id@
                                && self.nodes@[j].role is Replica),
                {
                    let n = &self.nodes[i];
                    if same_str(n.id.as_str(), id.as_str()) && n.role == NodeRole::Replica {
                        return true;
                    }
                }
                false
            },
            None => false,
        }
    }

    /// Whether the primary of before the roll runs the target version.
    pub fn old_primary_upgraded(&self) -> (r: bool)
        ensures
            r == self.old_on_target(),
    {
        match &self.old_primary_id {
            Some(id) => {
                for i in 0..self.nodes.len()
                    invariant
                        self.old_primary_id == Some(*id),
                        forall|j: int|
                            0 <= j < i ==> !((#[trigger] self.nodes@[j]).id@ == id@
                                && self.nodes@[j].on_target(self.target_version@)),
                {
                    let n = &self.nodes[i];
                    if same_str(n.id.as_str(), id.as_str()) && n.is_upgraded(
                        self.target_version.as_str(),
                    ) {
                        return true;
                    }
                }
                false
            },
            None => false,
        }
    }

    /// Whether every node runs the target version, so that nothing is left to do.
    pub fn shard_fully_upgraded(&self) -> (r: bool)
        ensures
            r == self.all_on_target(),
    {
        for i in 0..self.nodes.len()
            invariant
                forall|j: int|
                    0 <= j < i ==> (#[trigger] self.nodes@[j]).on_target(self.target_version@),
        {
            if !self.nodes[i].is_upgraded(self.target_version.as_str()) {
                return false;
            }
        }
        true
    }

    /// The index of the primary: the first node with that role.
    pub fn find_master(&self) -> (r: Option<usize>)
        ensures
            match r {
                Some(i) => first_master(self.nodes@) == i && i < self.nodes@.len(),
                None => first_master(self.nodes@) == self.nodes@.len(),
            },
    {
        find_master(self.nodes.as_slice())
    }

    /// Whether the primary runs the target version.
    pub fn master_on_target(&self) -> (r: bool)
        ensures
            r == self.master_upgraded(),
    {
        match self.find_master() {
            Some(i) => self.nodes[i].is_upgraded(self.target_version.as_str()),
            None => false,
        }
    }

    /// Whether a primary was observed and runs the target version.
    pub open spec fn master_upgraded(self) -> bool {
        let m = first_master(self.nodes@);
        m < self.nodes@.len() && self.nodes@[m].on_target(self.target_version@)
    }
}

/// Where the first primary stands among the nodes; their number where none is.
pub open spec fn first_master(nodes: Seq<NodeView>) -> int
    decreases nodes.len(),
{
    if nodes.len() == 0 || nodes[0].role is Master {
        0
    } else {
        1 + first_master(nodes.drop_first())
    }
}

/// The nodes before the first primary are replicas.
pub proof fn lemma_first_master(nodes: Seq<NodeView>)
    ensures
        0 <= first_master(nodes) <= nodes.len(),
        forall|j: int| 0 <= j < first_master(nodes) ==> (#[trigger] nodes[j]).role is Replica,
        first_master(nodes) < nodes.len() ==> nodes[first_master(nodes)].role is Master,
    decreases nodes.len(),
{
    if nodes.len() > 0 && nodes[0].role is Replica {
        lemma_first_master(nodes.drop_first());
        assert forall|j: int| 0 <= j < first_master(nodes) implies (
        #[trigger] nodes[j]).role is Replica by {
            if j > 0 {
                assert(nodes[j] == nodes.drop_first()[j - 1]);
            }
        }
    }
}

/// Finds the first primary.
pub fn find_master(nodes: &[NodeView]) -> (r: Option<usize>)
    ensures
        match r {
            Some(i) => first_master(nodes@) == i && i < nodes@.len(),
            None => first_master(nodes@) == nodes@.len(),
        },
{
    proof {
        lemma_first_master(nodes@);
    }
    for i in 0..nodes.len()
        invariant
            forall|j: int| 0 <= j < i ==> (#[trigger] nodes@[j]).role is Replica,
            0 <= first_master(nodes@) <= nodes@.len(),
            first_master(nodes@) < nodes@.len() ==> nodes@[first_master(nodes@)].role is Master,
            forall|j: int| 0 <= j < first_master(nodes@) ==> (#[trigger] nodes@[j]).role is Replica,
    {
        if nodes[i].role == NodeRole::Master {
            assert(nodes@[i as int].role is Master);
            return Some(i);
        }
    }
    None
}

/// A promotion is declared safe only with a quorum and an upgraded, attached,
/// in-sync candidate.
pub proof fn law_safe_promotion_is_in_sync(view: ClusterView)
    requires
        view.promotion() == PromotionSafety::Safe,
    ensures
        view.raft_quorum,
        view.candidate() is Some,
        0 <= view.candidate()->0 < view.nodes@.len(),
        view.nodes@[view.candidate()->0].promotable(view.target_version@, view.max_lag),
{
    lemma_best_candidate(view.nodes@, view.target_version@, view.max_lag, view.nodes@.len());
}

/// A shard that is fully upgraded has no replica left to upgrade.
pub proof fn law_upgraded_shard_has_no_work(view: ClusterView)
    requires
        view.all_on_target(),
    ensures
        to_upgrade_count(view.nodes@, view.target_version@, view.nodes@.len()) == 0,
{
    assert forall|n: nat| n <= view.nodes@.len() implies #[trigger] to_upgrade_count(
        view.nodes@,
        view.target_version@,
        n,
    ) == 0 by {
        lemma_no_work_prefix(view, n);
    }
}

proof fn lemma_no_work_prefix(view: ClusterView, n: nat)
    requires
        view.all_on_target(),
        n <= view.nodes@.len(),
    ensures
        to_upgrade_count(view.nodes@, view.target_version@, n) == 0,
    decreases n,
{
    if n > 0 {
        lemma_no_work_prefix(view, (n - 1) as nat);
        assert(view.nodes@[n - 1].on_target(view.target_version@));
    }
}

/// Whether a node is a replica on a version, attached, with a known lag within a bound.
pub open spec fn upgraded_and_in_sync(n: NodeView, version: Seq<char>, max_lag: u64) -> bool {
    &&& n.role == NodeRole::Replica
    &&& n.version@ == version
    &&& n.link == LinkStatus::Up
    &&& n.lag is Some
    &&& n.lag->0.writes is Some
    &&& n.lag->0.writes->0 <= max_lag
}

/// The candidate is an upgraded replica that is attached and in sync, and none of those
/// has a smaller lag, nor the same lag at an earlier place. Where there is none, no node
/// is such a replica.
pub proof fn law_candidate_is_the_least_behind(view: ClusterView)
    ensures
        match view.candidate() {
            Some(b) => {
                &&& 0 <= b < view.nodes@.len()
                &&& upgraded_and_in_sync(view.nodes@[b], view.target_version@, view.max_lag)
                &&& forall|j: int|
                    0 <= j < view.nodes@.len() && upgraded_and_in_sync(
                        #[trigger] view.nodes@[j],
                        view.target_version@,
                        view.max_lag,
                    ) ==> view.nodes@[b].lag->0.writes->0 <= view.nodes@[j].lag->0.writes->0 && (
                    view.nodes@[b].lag->0.writes->0 == view.nodes@[j].lag->0.writes->0 ==> b <= j)
            },
            None => forall|j: int|
                0 <= j < view.nodes@.len() ==> !upgraded_and_in_sync(
                    #[trigger] view.nodes@[j],
                    view.target_version@,
                    view.max_lag,
                ),
        },
        view.promotion() == PromotionSafety::Safe <==> view.raft_quorum && exists|j: int|
            0 <= j < view.nodes@.len() && upgraded_and_in_sync(
                #[trigger] view.nodes@[j],
                view.target_version@,
                view.max_lag,
            ),
        view.promotion() == PromotionSafety::NoQuorum <==> !view.raft_quorum,
{
    let nodes = view.nodes@;
    lemma_best_candidate(nodes, view.target_version@, view.max_lag, nodes.len());
    assert forall|j: int| 0 <= j < nodes.len() implies upgraded_and_in_sync(
        #[trigger] nodes[j],
        view.target_version@,
        view.max_lag,
    ) == nodes[j].promotable(view.target_version@, view.max_lag) by {}
    match view.candidate() {
        Some(b) => {
            assert(nodes[b].promotable(view.target_version@, view.max_lag));
            assert forall|j: int|
                0 <= j < nodes.len() && upgraded_and_in_sync(
                    #[trigger] nodes[j],
                    view.target_version@,
                    view.max_lag,
                ) implies nodes[b].lag->0.writes->0 <= nodes[j].lag->0.writes->0 && (
            nodes[b].lag->0.writes->0 == nodes[j].lag->0.writes->0 ==> b <= j) by {
                assert(nodes[j].promotable(view.target_version@, view.max_lag));
            }
        },
        None => {},
    }
}

/// The progress of a roll, in terms of the nodes: how many replicas are not on the
/// target, whether an upgraded replica is detached or too far behind, what has become of
/// the primary of before the roll, and whether the primary is on the target.
pub proof fn law_progress_is_that_of_the_nodes(view: ClusterView, i: int)
    ensures
        ({
            let target = view.target_version@;
            to_upgrade_count(view.nodes@, target, view.nodes@.len()) == view.nodes@.filter(
                |x: NodeView| x.role == NodeRole::Replica && x.version@ != target,
            ).len()
        }),
        view.catching_up() <==> exists|j: int|
            {
                &&& 0 <= j < view.nodes@.len()
                &&& (#[trigger] view.nodes@[j]).role == NodeRole::Replica
                &&& view.nodes@[j].version@ == view.target_version@
                &&& !upgraded_and_in_sync(view.nodes@[j], view.target_version@, view.max_lag)
            },
        view.demoted() <==> view.old_primary_id is Some && exists|j: int|
            0 <= j < view.nodes@.len() && (#[trigger] view.nodes@[j]).id@
                == view.old_primary_id->0@ && view.nodes@[j].role == NodeRole::Replica,
        view.old_on_target() <==> view.old_primary_id is Some && exists|j: int|
            0 <= j < view.nodes@.len() && (#[trigger] view.nodes@[j]).id@
                == view.old_primary_id->0@ && view.nodes@[j].version@ == view.target_version@,
        0 <= i < view.nodes@.len() && view.nodes@[i].role == NodeRole::Master && (forall|j: int|
            0 <= j < i ==> (#[trigger] view.nodes@[j]).role == NodeRole::Replica) ==> (
        view.master_upgraded() <==> view.nodes@[i].version@ == view.target_version@),
        (forall|j: int| 0 <= j < view.nodes@.len() ==> (#[trigger] view.nodes@[j]).role
            == NodeRole::Replica) ==> !view.master_upgraded(),
        view.all_on_target() <==> forall|j: int|
            0 <= j < view.nodes@.len() ==> (#[trigger] view.nodes@[j]).version@
                == view.target_version@,
{
    let nodes = view.nodes@;
    let target = view.target_version@;
    lemma_count_is_filter(nodes, target, nodes.len());
    assert(nodes.take(nodes.len() as int) =~= nodes);
    lemma_first_master(nodes);
    if view.catching_up() {
        let j = choose|j: int|
            0 <= j < nodes.len() && (#[trigger] nodes[j]).role is Replica && nodes[j].on_target(
                target,
            ) && !nodes[j].caught_up(view.max_lag);
        assert(!upgraded_and_in_sync(nodes[j], target, view.max_lag));
    }
    if exists|j: int|
        {
            &&& 0 <= j < nodes.len()
            &&& (#[trigger] nodes[j]).role == NodeRole::Replica
            &&& nodes[j].version@ == target
            &&& !upgraded_and_in_sync(nodes[j], target, view.max_lag)
        } {
        let j = choose|j: int|
            {
                &&& 0 <= j < nodes.len()
                &&& (#[trigger] nodes[j]).role == NodeRole::Replica
                &&& nodes[j].version@ == target
                &&& !upgraded_and_in_sync(nodes[j], target, view.max_lag)
            };
        assert(nodes[j].on_target(target) && !nodes[j].caught_up(view.max_lag));
    }
    if 0 <= i < nodes.len() && nodes[i].role == NodeRole::Master {
        assert(first_master(nodes) <= i);
    }
    if view.all_on_target() {
        assert forall|j: int| 0 <= j < nodes.len() implies (#[trigger] nodes[j]).version@
            == target by {
            assert(nodes[j].on_target(target));
        }
    }
    if exists|j: int|
        0 <= j < nodes.len() && (#[trigger] nodes[j]).id@ == view.old_primary_id->0@
            && nodes[j].version@ == target {
        let j = choose|j: int|
            0 <= j < nodes.len() && (#[trigger] nodes[j]).id@ == view.old_primary_id->0@
                && nodes[j].version@ == target;
        assert(nodes[j].on_target(target));
    }
}

proof fn lemma_count_is_filter(nodes: Seq<NodeView>, target: Seq<char>, n: nat)
    requires
        n <= nodes.len(),
    ensures
        to_upgrade_count(nodes, target, n) == nodes.take(n as int).filter(
            |x: NodeView| x.role == NodeRole::Replica && x.version@ != target,
        ).len(),
    decreases n,
{
    reveal(Seq::filter);
    if n > 0 {
        lemma_count_is_filter(nodes, target, (n - 1) as nat);
        assert(nodes.take(n as int).drop_last() =~= nodes.take(n - 1));
    }
}

} // verus!
