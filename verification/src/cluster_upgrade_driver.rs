//! The rolling upgrade of one shard: the static map of its nodes, the observation of
//! the cluster, and the actions on it.
//!
//! The replicas are upgraded first, then an upgraded replica is promoted behind the
//! failover-freeze fence, and the old primary is upgraded last. The fence freezes
//! the acknowledged writes on the old primary, waits until the candidate has applied
//! every one of them, and only then commits the failover.
use vstd::prelude::*;
use vstd::slice::slice_subrange;
use vstd::string::*;
use crate::cluster_upgrade::{find_master, first_master, lemma_first_master, ClusterView, NodeRole,
    NodeView};
use crate::idset::{id_list, id_set, insert_id, join_ids, joined, lemma_ascending_unique, lemma_id_list,
    same_ids};
use crate::repl::{LinkStatus, ReplOffset, ReplicaLag};
use crate::resp::string_views;
use crate::seams::Seams;
use crate::rolling::{rolling_step, upgrade_step, Progress, UpgradeReport, UpgradeStep};
use crate::text::{after_prefix, append_decimal, append_signed, chars_of, copy_str, cut_lit, decimal,
    opt_string, pieces, push_all, same_str, signed_decimal, string_of, trim, trimmed, words, words_of};
pub use crate::cluster_observe::{host_port, lag_of, normalize_version, normalized, parse_cluster_info,
    parse_info_replication, slave_lag_for, slave_views, split_host_port, NodeObservation,
    ObservationModel, QuorumObservation, SlaveEntry, SlaveModel};

verus! {

/// How one node is reached and actuated.
#[derive(Debug, Clone)]
pub struct ActuationTarget {
    /// The announce id.
    pub id: String,
    /// The address for commands, `host:port`.
    pub resp_addr: String,
    /// The password, where the node asks for one.
    pub auth: Option<String>,
    /// The SSH target for the swap of the binary.
    pub ssh: String,
    /// The arguments that name the new binary.
    pub upgrade_source: String,
}

impl ActuationTarget {
    /// A copy of the target.
    pub fn copy(&self) -> (r: Self)
        ensures
            r == *self,
    {
        let auth = match &self.auth {
            Some(a) => Some(a.clone()),
            None => None,
        };
        ActuationTarget {
            id: self.id.clone(),
            resp_addr: self.resp_addr.clone(),
            auth,
            ssh: self.ssh.clone(),
            upgrade_source: self.upgrade_source.clone(),
        }
    }
}

/// The static map of the shard. Its order is the order in which nodes are asked.
#[derive(Debug, Clone)]
pub struct Inventory {
    /// The nodes.
    pub nodes: Vec<ActuationTarget>,
}

/// The ids of targets.
pub open spec fn target_ids(nodes: Seq<ActuationTarget>) -> Seq<Seq<char>> {
    nodes.map_values(|t: ActuationTarget| t.id@)
}

/// Where the target with an id first stands; the number of targets where none has it.
pub open spec fn target_at(nodes: Seq<ActuationTarget>, id: Seq<char>) -> int
    decreases nodes.len(),
{
    if nodes.len() == 0 || nodes[0].id@ == id {
        0
    } else {
        1 + target_at(nodes.drop_first(), id)
    }
}

/// The target that `target_at` names has the id, and none before it does.
pub proof fn lemma_target_at(nodes: Seq<ActuationTarget>, id: Seq<char>)
    ensures
        0 <= target_at(nodes, id) <= nodes.len(),
        forall|j: int| 0 <= j < target_at(nodes, id) ==> (#[trigger] nodes[j]).id@ != id,
        target_at(nodes, id) < nodes.len() ==> nodes[target_at(nodes, id)].id@ == id,
    decreases nodes.len(),
{
    if nodes.len() > 0 && nodes[0].id@ != id {
        lemma_target_at(nodes.drop_first(), id);
        assert forall|j: int| 0 <= j < target_at(nodes, id) implies (#[trigger] nodes[j]).id@
            != id by {
            if j > 0 {
                assert(nodes[j] == nodes.drop_first()[j - 1]);
            }
        }
    }
}

impl Inventory {
    /// The target with an id.
    pub open spec fn target(self, id: Seq<char>) -> Option<ActuationTarget> {
        let k = target_at(self.nodes@, id);
        if k < self.nodes@.len() {
            Some(self.nodes@[k])
        } else {
            None
        }
    }

    /// An inventory of the given targets, in the given order.
    pub fn new(nodes: Vec<ActuationTarget>) -> (r: Self)
        ensures
            r.nodes == nodes,
    {
        Inventory { nodes }
    }

    /// The first target with an id.
    pub fn get(&self, id: &str) -> (r: Option<&ActuationTarget>)
        ensures
            match r {
                Some(t) => self.target(id@) == Some(*t),
                None => self.target(id@) is None,
            },
    {
        proof {
            lemma_target_at(self.nodes@, id@);
        }
        for i in 0..self.nodes.len()
            invariant
                forall|j: int| 0 <= j < i ==> (#[trigger] self.nodes@[j]).id@ != id@,
                0 <= target_at(self.nodes@, id@) <= self.nodes@.len(),
                forall|j: int|
                    0 <= j < target_at(self.nodes@, id@) ==> (#[trigger] self.nodes@[j]).id@ != id@,
                target_at(self.nodes@, id@) < self.nodes@.len() ==> self.nodes@[target_at(
                    self.nodes@,
                    id@,
                )].id@ == id@,
        {
            if same_str(self.nodes[i].id.as_str(), id) {
                assert(target_at(self.nodes@, id@) == i);
                return Some(&self.nodes[i]);
            }
        }
        None
    }

    /// The targets, in order.
    pub fn iter(&self) -> (r: core::slice::Iter<'_, ActuationTarget>)
        ensures
            vstd::std_specs::slice::into_iter_elts(r) == self.nodes@,
    {
        let s = self.nodes.as_slice();
        let r = s.iter();
        assert(vstd::std_specs::slice::into_iter_elts(r) =~= s@) by {
            broadcast use vstd::std_specs::slice::axiom_spec_slice_iter;

        }
        r
    }

    /// The number of targets.
    pub fn len(&self) -> (r: usize)
        ensures
            r == self.nodes@.len(),
    {
        self.nodes.len()
    }

    /// Whether there are no targets.
    pub fn is_empty(&self) -> (r: bool)
        ensures
            r == (self.nodes@.len() == 0),
    {
        self.nodes.len() == 0
    }

    /// The ids of the targets, ordered and each once.
    pub fn ids(&self) -> (r: Vec<String>)
        ensures
            string_views(r@) == id_list(target_ids(self.nodes@)),
    {
        let mut ids: Vec<String> = Vec::new();
        assert(string_views(ids@) =~= Seq::<Seq<char>>::empty());
        for i in 0..self.nodes.len()
            invariant
                string_views(ids@) == id_list(target_ids(self.nodes@.take(i as int))),
        {
            insert_id(&mut ids, self.nodes[i].id.as_str());
            assert(target_ids(self.nodes@.take(i as int + 1)).drop_last() =~= target_ids(
                self.nodes@.take(i as int),
            ));
            assert(target_ids(self.nodes@.take(i as int + 1)).last() == self.nodes@[i as int].id@);
        }
        assert(self.nodes@.take(self.nodes@.len() as int) =~= self.nodes@);
        ids
    }
}

/// Why a write freeze could not be set or released.
#[derive(Debug)]
pub struct PauseError {
    /// The failure.
    pub detail: String,
}

/// Where the write freeze is set, and for how long it holds at most.
#[derive(Debug, Clone)]
pub struct PauseTarget {
    /// The address of the node.
    pub resp_addr: String,
    /// The password, where the node asks for one.
    pub auth: Option<String>,
    /// The window in milliseconds.
    pub window_ms: u64,
}

/// Why a rolling upgrade stopped.
#[derive(Debug)]
pub enum ClusterUpgradeError {
    /// A command could not be exchanged.
    Client {
        /// The operation.
        op: String,
        /// The failure.
        detail: String,
    },
    /// A node could not be observed.
    Observe {
        /// The node.
        node: String,
        /// The failure.
        detail: String,
    },
    /// The members could not be discovered.
    Discover {
        /// The failure.
        detail: String,
    },
    /// A failover was refused.
    Failover {
        /// The candidate.
        node: String,
        /// The refusal.
        detail: String,
    },
    /// A node could not be upgraded.
    Upgrade {
        /// The node.
        node: String,
        /// The failure.
        detail: String,
    },
    /// The write freeze could not be set.
    Pause(PauseError),
    /// The members of the cluster are not those of the inventory.
    MembershipDrift {
        /// The ids of the inventory.
        inventory: String,
        /// The ids of the cluster.
        discovered: String,
    },
    /// No primary has been observed.
    OldPrimaryUnknown,
    /// A node is not in the inventory.
    UnknownNode {
        /// The id.
        id: String,
    },
    /// No replica may be promoted.
    NoCandidate,
    /// No replica is left to upgrade.
    NoReplicaToUpgrade,
    /// The candidate did not catch up with the frozen primary in time.
    DrainTimeout {
        /// The candidate.
        candidate: String,
        /// How often its lag was read.
        polls: u32,
    },
    /// A node has more than one shard.
    MultiShardUnsupported {
        /// The node.
        node: String,
        /// Its number of shards.
        shards: usize,
    },
}

impl ClusterUpgradeError {
    /// The message for the operator.
    pub open spec fn text(self) -> Seq<char> {
        match self {
            ClusterUpgradeError::Client { op, detail } => "RESP "@ + op@ + ": "@ + detail@,
            ClusterUpgradeError::Observe { node, detail } => "observing node "@ + node@ + ": "@
                + detail@,
            ClusterUpgradeError::Discover { detail } => "discovering cluster members: "@ + detail@,
            ClusterUpgradeError::Failover { node, detail } => "promoting "@ + node@
                + " via CLUSTER FAILOVER: "@ + detail@,
            ClusterUpgradeError::Upgrade { node, detail } => "upgrading node "@ + node@ + ": "@
                + detail@,
            ClusterUpgradeError::Pause(e) => "failover-freeze: "@ + e.detail@,
            ClusterUpgradeError::MembershipDrift { inventory, discovered } =>
                "cluster membership drift: inventory="@ + inventory@ + " discovered="@ + discovered@,
            ClusterUpgradeError::OldPrimaryUnknown =>
                "the pre-roll primary id is not known (no master observed)"@,
            ClusterUpgradeError::UnknownNode { id } => "node "@ + id@ + " is not in the inventory"@,
            ClusterUpgradeError::NoCandidate => "no promotable candidate at the promote step"@,
            ClusterUpgradeError::NoReplicaToUpgrade =>
                "no replica left to upgrade at the upgrade-replica step"@,
            ClusterUpgradeError::DrainTimeout { candidate, polls } =>
                "failover-freeze drain timed out for candidate "@ + candidate@ + " after "@
                + decimal(polls as nat) + " polls (fail-closed: no failover)"@,
            ClusterUpgradeError::MultiShardUnsupported { node, shards } => "node "@ + node@
                + " has shards="@ + decimal(shards as nat)
                + " (>1): the HA replica path is single-shard, so `ironcache upgrade --cluster` cannot guarantee RPO=0 on it (a promoted replica would serve ~1/"@
                + decimal(shards as nat)
                + " of its keyspace). Set `shards = 1` on every node for cluster replication / rolling upgrades (multi-shard is fine for non-HA / throughput-only deployments) (#731)."@,
        }
    }

    /// The message for the operator.
    pub fn message(&self) -> (r: String)
        ensures
            r@ == self.text(),
    {
        let mut r: String;
        match self {
            ClusterUpgradeError::Client { op, detail } => {
                r = "RESP ".to_owned();
                r.append(op.as_str());
                r.append(": ");
                r.append(detail.as_str());
            },
            ClusterUpgradeError::Observe { node, detail } => {
                r = "observing node ".to_owned();
                r.append(node.as_str());
                r.append(": ");
                r.append(detail.as_str());
            },
            ClusterUpgradeError::Discover { detail } => {
                r = "discovering cluster members: ".to_owned();
                r.append(detail.as_str());
            },
            ClusterUpgradeError::Failover { node, detail } => {
                r = "promoting ".to_owned();
                r.append(node.as_str());
                r.append(" via CLUSTER FAILOVER: ");
                r.append(detail.as_str());
            },
            ClusterUpgradeError::Upgrade { node, detail } => {
                r = "upgrading node ".to_owned();
                r.append(node.as_str());
                r.append(": ");
                r.append(detail.as_str());
            },
            ClusterUpgradeError::Pause(e) => {
                r = "failover-freeze: ".to_owned();
                r.append(e.detail.as_str());
            },
            ClusterUpgradeError::MembershipDrift { inventory, discovered } => {
                r = "cluster membership drift: inventory=".to_owned();
                r.append(inventory.as_str());
                r.append(" discovered=");
                r.append(discovered.as_str());
            },
            ClusterUpgradeError::OldPrimaryUnknown => {
                r = "the pre-roll primary id is not known (no master observed)".to_owned();
            },
            ClusterUpgradeError::UnknownNode { id } => {
                r = "node ".to_owned();
                r.append(id.as_str());
                r.append(" is not in the inventory");
            },
            ClusterUpgradeError::NoCandidate => {
                r = "no promotable candidate at the promote step".to_owned();
            },
            ClusterUpgradeError::NoReplicaToUpgrade => {
                r = "no replica left to upgrade at the upgrade-replica step".to_owned();
            },
            ClusterUpgradeError::DrainTimeout { candidate, polls } => {
                r = "failover-freeze drain timed out for candidate ".to_owned();
                r.append(candidate.as_str());
                r.append(" after ");
                append_decimal(&mut r, *polls as u64);
                r.append(" polls (fail-closed: no failover)");
            },
            ClusterUpgradeError::MultiShardUnsupported { node, shards } => {
                r = "node ".to_owned();
                r.append(node.as_str());
                r.append(" has shards=");
                append_decimal(&mut r, *shards as u64);
                r.append(
                    " (>1): the HA replica path is single-shard, so `ironcache upgrade --cluster` cannot guarantee RPO=0 on it (a promoted replica would serve ~1/",
                );
                append_decimal(&mut r, *shards as u64);
                r.append(
                    " of its keyspace). Set `shards = 1` on every node for cluster replication / rolling upgrades (multi-shard is fine for non-HA / throughput-only deployments) (#731).",
                );
            },
        }
        r
    }
}

/// The error for a reply that is no RESP.
pub fn resp_proto(detail: &str) -> (r: ClusterUpgradeError)
    ensures
        r matches ClusterUpgradeError::Client { op, detail: d } && op@ == "resp"@ && d@ == detail@,
{
    ClusterUpgradeError::Client { op: "resp".to_owned(), detail: detail.to_owned() }
}

/// The error for a connection that failed; `detail` is what the system said.
pub fn resp_io(detail: &str) -> (r: ClusterUpgradeError)
    ensures
        r matches ClusterUpgradeError::Client { op, detail: d } && op@ == "resp io"@ && d@
            == detail@,
{
    ClusterUpgradeError::Client { op: "resp io".to_owned(), detail: detail.to_owned() }
}

/// Reads from and commands the nodes of the cluster.
pub trait ClusterClient {
    /// All that was asked of the nodes so far, in order, with the answers. It is known
    /// only by what each call adds to it.
    closed spec fn asked(&self) -> Seq<Sighting> {
        arbitrary::<spec_fn(&Self) -> Seq<Sighting>>()(self)
    }

    /// The member ids that `seed` knows.
    fn discover_members(&mut self, seed: &ActuationTarget) -> (r: Result<
        Vec<String>,
        ClusterUpgradeError,
    >)
        ensures
            final(self).asked() == old(self).asked().push(
                Sighting::Members { of: *seed, answer: members_seen(r) },
            ),
    ;

    /// What `node` reports of itself.
    fn observe_node(&mut self, node: &ActuationTarget) -> (r: Result<
        NodeObservation,
        ClusterUpgradeError,
    >)
        ensures
            final(self).asked() == old(self).asked().push(
                Sighting::Node { of: *node, answer: r },
            ),
    ;

    /// The quorum signal that `seed` gives.
    fn observe_quorum(&mut self, seed: &ActuationTarget) -> (r: Result<
        QuorumObservation,
        ClusterUpgradeError,
    >)
        ensures
            final(self).asked() == old(self).asked().push(
                Sighting::Quorum { of: *seed, answer: r },
            ),
    ;

    /// Commits the promotion of `node`.
    fn cluster_failover(&mut self, node: &ActuationTarget) -> (r: Result<(), ClusterUpgradeError>)
        ensures
            final(self).asked() == old(self).asked().push(
                Sighting::Failover { of: *node, answer: r },
            ),
    ;
}

/// Swaps the binary of one node.
pub trait NodeUpgrader {
    /// All swaps that were asked for so far, in order, with what came of them. It is
    /// known only by what each call adds to it.
    closed spec fn asked(&self) -> Seq<Swap> {
        arbitrary::<spec_fn(&Self) -> Seq<Swap>>()(self)
    }

    /// Upgrades `target`; it is up on the new binary when this returns.
    fn upgrade(&mut self, target: &ActuationTarget) -> (r: Result<(), ClusterUpgradeError>)
        ensures
            final(self).asked() == old(self).asked().push(Swap { target: *target, answer: r }),
    ;
}

/// The swaps of the actuator in a box, so that it can be picked while the program runs.
impl<U: NodeUpgrader + ?Sized> NodeUpgrader for Box<U> {
    open spec fn asked(&self) -> Seq<Swap> {
        (**self).asked()
    }

    fn upgrade(&mut self, target: &ActuationTarget) -> (r: Result<(), ClusterUpgradeError>) {
        (**self).upgrade(target)
    }
}

/// Sets and releases the write freeze on a node.
pub trait Pauser {
    /// Stops acknowledging writes on the target.
    fn freeze(&self, target: &PauseTarget) -> Result<(), PauseError>;

    /// Acknowledges writes again.
    fn unfreeze(&self, target: &PauseTarget) -> Result<(), PauseError>;
}

/// Paces the loops.
pub trait Sleeper {
    /// Pauses for `millis` milliseconds.
    fn sleep(&self, millis: u64);
}

/// How the failover-freeze fence is tuned.
#[derive(Debug, Clone, Copy, PartialEq, Eq, Structural)]
pub struct FreezeCfg {
    /// The window of the write freeze, in milliseconds.
    pub pause_window_ms: u64,
    /// How often the lag is read before the fence gives up.
    pub max_drain_polls: u32,
    /// The pause between two readings, in milliseconds.
    pub drain_poll_delay_ms: u64,
}

impl Default for FreezeCfg {
    fn default() -> (r: Self)
        ensures
            r.pause_window_ms == 30_000,
            r.max_drain_polls == 600,
            r.drain_poll_delay_ms == 100,
    {
        FreezeCfg { pause_window_ms: 30_000, max_drain_polls: 600, drain_poll_delay_ms: 100 }
    }
}

/// How the roll is paced.
#[derive(Debug, Clone, Copy, PartialEq, Eq, Structural)]
pub struct PollCfg {
    /// The pause before each new observation, in milliseconds.
    pub tick_delay_ms: u64,
}

impl Default for PollCfg {
    fn default() -> (r: Self)
        ensures
            r.tick_delay_ms == 500,
    {
        PollCfg { tick_delay_ms: 500 }
    }
}

/// How a roll is set up.
#[derive(Debug, Clone)]
pub struct DriverConfig {
    /// The nodes.
    pub inventory: Inventory,
    /// The version that the shard is rolled to.
    pub target_version: String,
    /// The largest lag at which a replica counts as in sync.
    pub max_lag: u64,
    /// The pacing of the roll.
    pub poll: PollCfg,
    /// The tuning of the fence.
    pub freeze: FreezeCfg,
}

/// Whether the members that were discovered are those of the inventory.
pub open spec fn same_members(inventory: Seq<Seq<char>>, discovered: Seq<Seq<char>>) -> bool {
    id_list(inventory) == id_list(discovered)
}

/// Two lists have the same members when each id of the one is an id of the other.
pub proof fn law_same_members(a: Seq<Seq<char>>, b: Seq<Seq<char>>)
    ensures
        same_members(a, b) <==> (forall|id: Seq<char>| #[trigger] a.contains(id) <==> b.contains(id)),
{
    lemma_id_list(a);
    lemma_id_list(b);
    if forall|id: Seq<char>| #[trigger] a.contains(id) <==> b.contains(id) {
        assert forall|y: Seq<char>| #[trigger] id_list(a).contains(y) <==> id_list(b).contains(
            y,
        ) by {
            assert(a.contains(y) <==> b.contains(y));
        }
        lemma_ascending_unique(id_list(a), id_list(b));
    }
    if same_members(a, b) {
        assert forall|id: Seq<char>| #[trigger] a.contains(id) <==> b.contains(id) by {
            assert(id_list(a).contains(id) <==> a.contains(id));
            assert(id_list(b).contains(id) <==> b.contains(id));
        }
    }
}

/// Refuses a cluster whose members are not those of the inventory.
pub fn check_membership(inventory: &Inventory, discovered: &Vec<String>) -> (r: Result<
    (),
    ClusterUpgradeError,
>)
    ensures
        r is Ok <==> same_members(target_ids(inventory.nodes@), string_views(discovered@)),
        r matches Err(e) ==> (e matches ClusterUpgradeError::MembershipDrift {
            inventory: i,
            discovered: d,
        } && i@ == joined(id_list(target_ids(inventory.nodes@))) && d@ == joined(
            id_list(string_views(discovered@)),
        )),
{
    let known = inventory.ids();
    let live = id_set(discovered.as_slice());
    if same_ids(known.as_slice(), live.as_slice()) {
        Ok(())
    } else {
        Err(
            ClusterUpgradeError::MembershipDrift {
                inventory: join_ids(known.as_slice()),
                discovered: join_ids(live.as_slice()),
            },
        )
    }
}

/// Refuses the first node with more than one shard: a promoted replica of it would
/// serve only a part of the keys.
pub fn check_single_shard(nodes: &Vec<ActuationTarget>, obs: &Vec<NodeObservation>) -> (r: Result<
    (),
    ClusterUpgradeError,
>)
    requires
        nodes@.len() == obs@.len(),
    ensures
        r is Ok <==> forall|i: int| 0 <= i < obs@.len() ==> (#[trigger] obs@[i]).shards <= 1,
        r matches Err(e) ==> exists|i: int|
            0 <= i < obs@.len() && (#[trigger] obs@[i]).shards > 1 && (forall|j: int|
                0 <= j < i ==> (#[trigger] obs@[j]).shards <= 1) && (e matches
                ClusterUpgradeError::MultiShardUnsupported { node, shards } && node@
                == nodes@[i].id@ && shards == obs@[i].shards),
{
    for i in 0..obs.len()
        invariant
            nodes@.len() == obs@.len(),
            forall|j: int| 0 <= j < i ==> (#[trigger] obs@[j]).shards <= 1,
    {
        if obs[i].shards > 1 {
            let e = ClusterUpgradeError::MultiShardUnsupported {
                node: nodes[i].id.clone(),
                shards: obs[i].shards,
            };
            assert(obs@[i as int].shards > 1);
            return Err(e);
        }
    }
    Ok(())
}

/// Where the first master stands among observations; their number where none is.
pub open spec fn master_at(obs: Seq<NodeObservation>) -> int
    decreases obs.len(),
{
    if obs.len() == 0 || obs[0].role is Master {
        0
    } else {
        1 + master_at(obs.drop_first())
    }
}

/// The replicas that the first master lists.
pub open spec fn master_list(obs: Seq<NodeObservation>) -> Seq<SlaveModel> {
    let k = master_at(obs);
    if k < obs.len() {
        slave_views(obs[k].slaves@)
    } else {
        Seq::empty()
    }
}

/// The lag of a node: none for a master, unknown for a detached replica, else what
/// the master lists.
pub open spec fn node_lag(o: NodeObservation, addr: Seq<char>, list: Seq<SlaveModel>) -> Option<
    ReplicaLag,
> {
    if o.role is Master {
        None
    } else if o.link is Up {
        Some(
            ReplicaLag {
                writes: match lag_of(list, addr) {
                    Some(n) => Some(n as u64),
                    None => None,
                },
            },
        )
    } else {
        Some(ReplicaLag { writes: None })
    }
}

/// Whether `n` is what an observation says of a target.
pub open spec fn is_view_of(
    n: NodeView,
    t: ActuationTarget,
    o: NodeObservation,
    list: Seq<SlaveModel>,
) -> bool {
    &&& n.id@ == t.id@
    &&& n.version@ == normalized(o.version@)
    &&& n.role == o.role
    &&& n.link == (if o.role is Replica {
        o.link
    } else {
        LinkStatus::Down
    })
    &&& n.lag == node_lag(o, t.resp_addr@, list)
}

/// Whether `views` are what the observations say of the targets, one for one.
pub open spec fn are_views_of(
    views: Seq<NodeView>,
    nodes: Seq<ActuationTarget>,
    obs: Seq<NodeObservation>,
) -> bool {
    &&& views.len() == nodes.len()
    &&& obs.len() == nodes.len()
    &&& forall|i: int|
        0 <= i < views.len() ==> is_view_of(#[trigger] views[i], nodes[i], obs[i], master_list(obs))
}

/// The index of the first master among observations.
fn find_observed_master(obs: &Vec<NodeObservation>) -> (r: Option<usize>)
    ensures
        match r {
            Some(i) => i < obs@.len() && master_at(obs@) == i,
            None => master_at(obs@) == obs@.len(),
        },
{
    assert(obs@.skip(0) =~= obs@);
    for i in 0..obs.len()
        invariant
            master_at(obs@) == i + master_at(obs@.skip(i as int)),
    {
        assert(obs@.skip(i as int)[0] == obs@[i as int]);
        if obs[i].role == NodeRole::Master {
            return Some(i);
        }
        assert(obs@.skip(i as int).drop_first() =~= obs@.skip(i as int + 1));
    }
    assert(obs@.skip(obs@.len() as int).len() == 0);
    None
}

/// Puts the observations together: versions normalized, and the lag of an attached
/// replica taken from the list of the master.
pub fn assemble_nodes(nodes: &Vec<ActuationTarget>, obs: &Vec<NodeObservation>) -> (r: Vec<NodeView>)
    requires
        nodes@.len() == obs@.len(),
    ensures
        are_views_of(r@, nodes@, obs@),
{
    let none: Vec<SlaveEntry> = Vec::new();
    assert(slave_views(none@) =~= Seq::<SlaveModel>::empty());
    let list: &Vec<SlaveEntry> = match find_observed_master(obs) {
        Some(m) => &obs[m].slaves,
        None => &none,
    };
    let mut out: Vec<NodeView> = Vec::new();
    for i in 0..nodes.len()
        invariant
            nodes@.len() == obs@.len(),
            slave_views(list@) == master_list(obs@),
            out@.len() == i,
            forall|j: int|
                0 <= j < i ==> is_view_of(#[trigger] out@[j], nodes@[j], obs@[j], master_list(obs@)),
    {
        let t = &nodes[i];
        let o = &obs[i];
        let version = normalize_version(o.version.as_str());
        let link: LinkStatus;
        let lag: Option<ReplicaLag>;
        match o.role {
            NodeRole::Master => {
                link = LinkStatus::Down;
                lag = None;
            },
            NodeRole::Replica => {
                link = o.link;
                if o.link.is_up() {
                    lag =
                    match slave_lag_for(list.as_slice(), t.resp_addr.as_str()) {
                        Some(n) => Some(ReplicaLag::compute(ReplOffset(n), ReplOffset(0))),
                        None => Some(ReplicaLag::unknown()),
                    };
                } else {
                    lag = Some(ReplicaLag::unknown());
                }
            },
        }
        let n = NodeView { id: t.id.clone(), version, role: o.role, link, lag };
        assert(is_view_of(n, *t, *o, master_list(obs@)));
        out.push(n);
    }
    out
}

/// The primary of before the roll: the one remembered, else the first master.
pub open spec fn captured(old: Option<Seq<char>>, nodes: Seq<NodeView>) -> Option<Seq<char>> {
    match old {
        Some(id) => Some(id),
        None => if first_master(nodes) < nodes.len() {
            Some(nodes[first_master(nodes)].id@)
        } else {
            None
        },
    }
}

/// Remembers the primary of before the roll. Once an id is remembered it stays,
/// since the roles change when a replica is promoted.
pub fn capture_primary(old: &Option<String>, nodes: &Vec<NodeView>) -> (r: Option<String>)
    ensures
        opt_string(r) == captured(opt_string(*old), nodes@),
        *old is Some ==> r == *old,
{
    match old {
        Some(id) => Some(id.clone()),
        None => match find_master(nodes.as_slice()) {
            Some(m) => Some(nodes[m].id.clone()),
            None => None,
        },
    }
}

fn copy_node(n: &NodeView) -> (r: NodeView)
    ensures
        r == *n,
{
    NodeView {
        id: n.id.clone(),
        version: n.version.clone(),
        role: n.role,
        link: n.link,
        lag: n.lag,
    }
}

/// Whether two observations say the same.
pub open spec fn same_view(a: ClusterView, b: ClusterView) -> bool {
    &&& a.nodes@ == b.nodes@
    &&& a.target_version@ == b.target_version@
    &&& a.max_lag == b.max_lag
    &&& a.raft_quorum == b.raft_quorum
    &&& opt_string(a.old_primary_id) == opt_string(b.old_primary_id)
}

/// A copy of an observation.
pub fn copy_view(v: &ClusterView) -> (r: ClusterView)
    ensures
        same_view(r, *v),
{
    let mut nodes: Vec<NodeView> = Vec::new();
    for i in 0..v.nodes.len()
        invariant
            nodes@ == v.nodes@.take(i as int),
    {
        nodes.push(copy_node(&v.nodes[i]));
        assert(v.nodes@.take(i as int + 1) =~= v.nodes@.take(i as int).push(v.nodes@[i as int]));
    }
    assert(v.nodes@.take(v.nodes@.len() as int) =~= v.nodes@);
    let old_primary_id = match &v.old_primary_id {
        Some(id) => Some(id.clone()),
        None => None,
    };
    ClusterView {
        nodes,
        target_version: v.target_version.clone(),
        max_lag: v.max_lag,
        raft_quorum: v.raft_quorum,
        old_primary_id,
    }
}

/// Where a write freeze is set, with which password and for how long.
pub struct FreezeView {
    /// The address.
    pub addr: Seq<char>,
    /// The password.
    pub auth: Option<Seq<char>>,
    /// The window in milliseconds.
    pub window_ms: u64,
}

impl View for PauseTarget {
    type V = FreezeView;

    open spec fn view(&self) -> FreezeView {
        FreezeView {
            addr: self.resp_addr@,
            auth: opt_string(self.auth),
            window_ms: self.window_ms,
        }
    }
}

/// The freeze of a primary.
pub open spec fn freeze_of(t: ActuationTarget, window_ms: u64) -> FreezeView {
    FreezeView { addr: t.resp_addr@, auth: opt_string(t.auth), window_ms }
}

/// One action of the failover-freeze fence, with what came of it.
pub enum FenceEvent {
    /// The write freeze was asked for.
    Freeze {
        /// Where.
        to: FreezeView,
        /// What came of it.
        answer: Result<(), PauseError>,
    },
    /// The lag of the candidate was read from the frozen primary.
    Poll {
        /// The node that was asked.
        of: ActuationTarget,
        /// Its answer.
        obs: NodeObservation,
        /// The lag that the answer lists for the candidate.
        lag: Option<int>,
        /// The pause behind the reading, in milliseconds.
        pause_ms: u64,
    },
    /// The lag could not be read.
    PollFailed {
        /// The node that was asked.
        of: ActuationTarget,
        /// Why.
        error: ClusterUpgradeError,
    },
    /// The failover was commanded.
    Failover {
        /// The candidate.
        candidate: ActuationTarget,
        /// What came of it.
        answer: Result<(), ClusterUpgradeError>,
    },
    /// The freeze was released.
    Release {
        /// Where.
        to: FreezeView,
    },
}

/// How a run of the fence ended.
pub enum FenceOutcome {
    /// The freeze could not be set.
    FreezeRefused(PauseError),
    /// The lag never was zero.
    TimedOut,
    /// The lag could not be read.
    PollFailed(ClusterUpgradeError),
    /// The lag was zero and the failover was commanded; what came of it.
    Drained(Result<(), ClusterUpgradeError>),
}

/// Whether the readings of the lag can lead to an outcome: the readings stop at the
/// first zero and number at most `max`.
pub open spec fn fence_readings(lags: Seq<Option<int>>, outcome: FenceOutcome, max: int) -> bool {
    &&& match outcome {
        FenceOutcome::FreezeRefused(_) => lags.len() == 0,
        FenceOutcome::TimedOut => lags.len() == max,
        FenceOutcome::PollFailed(_) => lags.len() < max,
        FenceOutcome::Drained(_) => 0 < lags.len() <= max && lags.last() == Some(0int),
    }
    &&& forall|i: int|
        0 <= i < lags.len() && !(outcome is Drained && i == lags.len() - 1)
            ==> #[trigger] lags[i] != Some(0int)
}

/// The lag that the answer of a primary lists for the address of a candidate.
pub open spec fn listed_lag(obs: NodeObservation, candidate: ActuationTarget) -> Option<int> {
    lag_of(slave_views(obs.slaves@), candidate.resp_addr@)
}

/// The lags that answers of a primary list for a candidate.
pub open spec fn listed_lags(seen: Seq<NodeObservation>, candidate: ActuationTarget) -> Seq<
    Option<int>,
> {
    seen.map_values(|obs: NodeObservation| listed_lag(obs, candidate))
}

/// One reading of the lag as an action of the fence: behind it there is a pause, unless
/// the lag is zero.
pub open spec fn poll_event(
    primary: ActuationTarget,
    candidate: ActuationTarget,
    obs: NodeObservation,
    delay: u64,
) -> FenceEvent {
    let lag = listed_lag(obs, candidate);
    FenceEvent::Poll {
        of: primary,
        obs,
        lag,
        pause_ms: if lag == Some(0int) {
            0
        } else {
            delay
        },
    }
}

/// Readings of the lag as actions of the fence.
pub open spec fn poll_events(
    primary: ActuationTarget,
    candidate: ActuationTarget,
    seen: Seq<NodeObservation>,
    delay: u64,
) -> Seq<FenceEvent> {
    seen.map_values(|obs: NodeObservation| poll_event(primary, candidate, obs, delay))
}

/// The actions of the fence, in order, for given answers of the old primary and a given
/// outcome.
pub open spec fn fence_trace(
    primary: ActuationTarget,
    candidate: ActuationTarget,
    freeze: FreezeCfg,
    seen: Seq<NodeObservation>,
    outcome: FenceOutcome,
) -> Seq<FenceEvent> {
    let to = freeze_of(primary, freeze.pause_window_ms);
    let frozen = seq![FenceEvent::Freeze { to, answer: Ok(()) }];
    let polls = poll_events(primary, candidate, seen, freeze.drain_poll_delay_ms);
    let release = FenceEvent::Release { to };
    match outcome {
        FenceOutcome::FreezeRefused(e) => seq![FenceEvent::Freeze { to, answer: Err(e) }],
        FenceOutcome::TimedOut => frozen + polls + seq![release],
        FenceOutcome::PollFailed(error) => frozen + polls + seq![
            FenceEvent::PollFailed { of: primary, error },
            release,
        ],
        FenceOutcome::Drained(answer) => frozen + polls + seq![
            FenceEvent::Failover { candidate, answer },
            release,
        ],
    }
}

/// No failover is commanded before the freeze of the old primary holds and an answer of
/// that primary lists the candidate's lag as exactly zero, and the reading comes directly
/// before the failover.
pub proof fn law_failover_only_when_drained(
    primary: ActuationTarget,
    candidate: ActuationTarget,
    freeze: FreezeCfg,
    seen: Seq<NodeObservation>,
    outcome: FenceOutcome,
    i: int,
)
    requires
        fence_readings(
            listed_lags(seen, candidate),
            outcome,
            freeze.max_drain_polls as int,
        ),
        0 <= i < fence_trace(primary, candidate, freeze, seen, outcome).len(),
        fence_trace(primary, candidate, freeze, seen, outcome)[i] is Failover,
    ensures
        i >= 2,
        fence_trace(primary, candidate, freeze, seen, outcome)[0] == (FenceEvent::Freeze {
            to: freeze_of(primary, freeze.pause_window_ms),
            answer: Ok(()),
        }),
        fence_trace(primary, candidate, freeze, seen, outcome)[i - 1] == (FenceEvent::Poll {
            of: primary,
            obs: seen.last(),
            lag: Some(0int),
            pause_ms: 0,
        }),
        listed_lag(seen.last(), candidate) == Some(0int),
        lists_lag(seen.last(), candidate.resp_addr@, 0),
        fence_trace(primary, candidate, freeze, seen, outcome)[i] matches FenceEvent::Failover {
            candidate: c,
            ..
        } && c == candidate,
        outcome is Drained,
{
    let t = fence_trace(primary, candidate, freeze, seen, outcome);
    let polls = poll_events(primary, candidate, seen, freeze.drain_poll_delay_ms);
    if 0 < i <= seen.len() {
        assert(t[i] == polls[i - 1]);
        assert(t[i] is Poll);
    }
    assert(outcome is Drained && i == seen.len() + 1);
    assert(t[i - 1] == polls[i - 2]);
    assert(listed_lags(seen, candidate).last() == listed_lag(seen.last(), candidate));
    law_listed_lag_is_of_the_replica(seen.last(), candidate);
}

/// A freeze that was set is released again, whatever happened in between.
pub proof fn law_freeze_is_released(
    primary: ActuationTarget,
    candidate: ActuationTarget,
    freeze: FreezeCfg,
    seen: Seq<NodeObservation>,
    outcome: FenceOutcome,
)
    requires
        !(outcome is FreezeRefused),
    ensures
        fence_trace(primary, candidate, freeze, seen, outcome)[0] == (FenceEvent::Freeze {
            to: freeze_of(primary, freeze.pause_window_ms),
            answer: Ok(()),
        }),
        fence_trace(primary, candidate, freeze, seen, outcome).last() == (FenceEvent::Release {
            to: freeze_of(primary, freeze.pause_window_ms),
        }),
{
}

/// A drain that times out commands no failover.
pub proof fn law_timeout_fails_closed(
    primary: ActuationTarget,
    candidate: ActuationTarget,
    freeze: FreezeCfg,
    seen: Seq<NodeObservation>,
    i: int,
)
    requires
        0 <= i < fence_trace(primary, candidate, freeze, seen, FenceOutcome::TimedOut).len(),
    ensures
        !(fence_trace(primary, candidate, freeze, seen, FenceOutcome::TimedOut)[i] is Failover),
{
    let polls = poll_events(primary, candidate, seen, freeze.drain_poll_delay_ms);
    if 0 < i <= seen.len() {
        assert(fence_trace(primary, candidate, freeze, seen, FenceOutcome::TimedOut)[i]
            == polls[i - 1]);
    }
}

/// What an action of the fence asks of the nodes.
pub open spec fn event_asks(e: FenceEvent) -> Seq<Sighting> {
    match e {
        FenceEvent::Poll { of, obs, .. } => seq![Sighting::Node { of, answer: Ok(obs) }],
        FenceEvent::PollFailed { of, error } => seq![Sighting::Node { of, answer: Err(error) }],
        FenceEvent::Failover { candidate, answer } => seq![
            Sighting::Failover { of: candidate, answer },
        ],
        _ => Seq::empty(),
    }
}

/// What actions of the fence ask of the nodes, in order.
pub open spec fn fence_asks(fence: Seq<FenceEvent>) -> Seq<Sighting>
    decreases fence.len(),
{
    if fence.len() == 0 {
        Seq::empty()
    } else {
        fence_asks(fence.drop_last()) + event_asks(fence.last())
    }
}

pub(crate) proof fn lemma_fence_asks(a: Seq<FenceEvent>, b: Seq<FenceEvent>)
    ensures
        fence_asks(a + b) == fence_asks(a) + fence_asks(b),
    decreases b.len(),
{
    if b.len() == 0 {
        assert(a + b =~= a);
        assert(fence_asks(a) + fence_asks(b) =~= fence_asks(a));
    } else {
        lemma_fence_asks(a, b.drop_last());
        assert((a + b).drop_last() =~= a + b.drop_last());
        assert((a + b).last() == b.last());
        assert(fence_asks(a + b) =~= fence_asks(a) + fence_asks(b));
    }
}

pub(crate) proof fn lemma_one_ask(e: FenceEvent)
    ensures
        fence_asks(seq![e]) == event_asks(e),
{
    assert(seq![e].drop_last() =~= Seq::<FenceEvent>::empty());
    assert(fence_asks(Seq::<FenceEvent>::empty()) =~= Seq::<Sighting>::empty());
    assert(fence_asks(seq![e]) =~= event_asks(e));
}

/// Whether the freeze, the release or the pause of an action took place: the pauser was
/// called for that node with that answer, or the sleeper for that pause.
pub open spec fn event_done<P: Pauser, S: Sleeper>(pauser: P, sleeper: S, e: FenceEvent) -> bool {
    match e {
        FenceEvent::Freeze { to, answer } => exists|t: PauseTarget|
            t@ == to && #[trigger] call_ensures(P::freeze, (&pauser, &t), answer),
        FenceEvent::Release { to } => exists|t: PauseTarget, answer: Result<(), PauseError>|
            t@ == to && #[trigger] call_ensures(P::unfreeze, (&pauser, &t), answer),
        FenceEvent::Poll { lag, pause_ms, .. } => lag == Some(0int) || call_ensures(
            S::sleep,
            (&sleeper, pause_ms),
            (),
        ),
        _ => true,
    }
}

/// Whether the freezes, releases and pauses of actions took place.
pub open spec fn fence_done<P: Pauser, S: Sleeper>(
    pauser: P,
    sleeper: S,
    fence: Seq<FenceEvent>,
) -> bool {
    forall|k: int| 0 <= k < fence.len() ==> event_done(pauser, sleeper, #[trigger] fence[k])
}

/// A question or a command to a node, with the answer.
pub enum Sighting {
    /// A node was asked for the members.
    Members {
        /// The node.
        of: ActuationTarget,
        /// The answer.
        answer: Result<Seq<Seq<char>>, ClusterUpgradeError>,
    },
    /// A node was asked for its state.
    Node {
        /// The node.
        of: ActuationTarget,
        /// The answer.
        answer: Result<NodeObservation, ClusterUpgradeError>,
    },
    /// A node was asked for the quorum signal.
    Quorum {
        /// The node.
        of: ActuationTarget,
        /// The answer.
        answer: Result<QuorumObservation, ClusterUpgradeError>,
    },
    /// A node was commanded to take over.
    Failover {
        /// The node.
        of: ActuationTarget,
        /// The answer.
        answer: Result<(), ClusterUpgradeError>,
    },
}

/// The members that an answer names.
pub open spec fn members_seen(r: Result<Vec<String>, ClusterUpgradeError>) -> Result<
    Seq<Seq<char>>,
    ClusterUpgradeError,
> {
    match r {
        Ok(ids) => Ok(string_views(ids@)),
        Err(e) => Err(e),
    }
}

/// Whether nodes were asked in order until one answered, `n` of them at most.
pub open spec fn asked_until_answered<T>(
    answers: Seq<Result<T, ClusterUpgradeError>>,
    n: nat,
) -> bool {
    &&& answers.len() <= n
    &&& forall|i: int| 0 <= i < answers.len() - 1 ==> (#[trigger] answers[i]) is Err
    &&& answers.len() < n ==> answers.len() > 0 && answers.last() is Ok
}

/// Whether `n` nodes were asked in order until one did not answer.
pub open spec fn asked_while_answered<T>(
    answers: Seq<Result<T, ClusterUpgradeError>>,
    n: nat,
) -> bool {
    &&& answers.len() <= n
    &&& forall|i: int| 0 <= i < answers.len() - 1 ==> (#[trigger] answers[i]) is Ok
    &&& answers.len() < n ==> answers.len() > 0 && answers.last() is Err
}

/// The answers of one observation of the cluster.
pub struct Round {
    /// The members, as the nodes named them.
    pub members: Seq<Result<Seq<Seq<char>>, ClusterUpgradeError>>,
    /// The states of the nodes.
    pub nodes: Seq<Result<NodeObservation, ClusterUpgradeError>>,
    /// The quorum signal, as the nodes told it.
    pub quorum: Seq<Result<QuorumObservation, ClusterUpgradeError>>,
}

impl Round {
    /// Whether the members are those of the inventory.
    pub open spec fn members_match(self, nodes: Seq<ActuationTarget>) -> bool {
        self.members.len() > 0 && match self.members.last() {
            Ok(ids) => same_members(target_ids(nodes), ids),
            Err(_) => false,
        }
    }

    /// Whether every node told its state.
    pub open spec fn all_seen(self, nodes: Seq<ActuationTarget>) -> bool {
        &&& self.nodes.len() == nodes.len()
        &&& forall|i: int| 0 <= i < self.nodes.len() ==> (#[trigger] self.nodes[i]) is Ok
    }

    /// The states of the nodes.
    pub open spec fn states(self) -> Seq<NodeObservation> {
        Seq::new(self.nodes.len(), |i: int| self.nodes[i]->Ok_0)
    }

    /// Whether the observation got as far as the quorum signal.
    pub open spec fn got_to_quorum(self, nodes: Seq<ActuationTarget>) -> bool {
        &&& self.members_match(nodes)
        &&& self.all_seen(nodes)
        &&& one_shard_each(self.states())
    }

    /// Whether the questions were asked as they have to be: each kind only after the
    /// one before it went well.
    pub open spec fn well_asked(self, nodes: Seq<ActuationTarget>) -> bool {
        &&& asked_until_answered(self.members, nodes.len())
        &&& if self.members_match(nodes) {
            asked_while_answered(self.nodes, nodes.len())
        } else {
            self.nodes.len() == 0
        }
        &&& if self.got_to_quorum(nodes) {
            asked_until_answered(self.quorum, nodes.len())
        } else {
            self.quorum.len() == 0
        }
    }

    /// The questions, in order.
    pub open spec fn sightings(self, nodes: Seq<ActuationTarget>) -> Seq<Sighting> {
        member_sightings(nodes, self.members) + node_sightings(nodes, self.nodes)
            + quorum_sightings(nodes, self.quorum)
    }
}

/// The questions for the members.
pub open spec fn member_sightings(
    nodes: Seq<ActuationTarget>,
    answers: Seq<Result<Seq<Seq<char>>, ClusterUpgradeError>>,
) -> Seq<Sighting> {
    Seq::new(answers.len(), |i: int| Sighting::Members { of: nodes[i], answer: answers[i] })
}

/// The questions for the states.
pub open spec fn node_sightings(
    nodes: Seq<ActuationTarget>,
    answers: Seq<Result<NodeObservation, ClusterUpgradeError>>,
) -> Seq<Sighting> {
    Seq::new(answers.len(), |i: int| Sighting::Node { of: nodes[i], answer: answers[i] })
}

/// The questions for the quorum signal.
pub open spec fn quorum_sightings(
    nodes: Seq<ActuationTarget>,
    answers: Seq<Result<QuorumObservation, ClusterUpgradeError>>,
) -> Seq<Sighting> {
    Seq::new(answers.len(), |i: int| Sighting::Quorum { of: nodes[i], answer: answers[i] })
}

/// Whether no node has more than one shard.
pub open spec fn one_shard_each(obs: Seq<NodeObservation>) -> bool {
    forall|i: int| 0 <= i < obs.len() ==> (#[trigger] obs[i]).shards <= 1
}

/// Whether an error names the first node with more than one shard.
pub open spec fn names_multi_shard(
    e: ClusterUpgradeError,
    nodes: Seq<ActuationTarget>,
    obs: Seq<NodeObservation>,
) -> bool {
    exists|i: int|
        0 <= i < obs.len() && (#[trigger] obs[i]).shards > 1 && (forall|j: int|
            0 <= j < i ==> (#[trigger] obs[j]).shards <= 1) && (e matches
            ClusterUpgradeError::MultiShardUnsupported { node, shards } && node@ == nodes[i].id@
            && shards == obs[i].shards)
}

/// Whether an error names the members that differ.
pub open spec fn names_drift(
    e: ClusterUpgradeError,
    nodes: Seq<ActuationTarget>,
    members: Seq<Seq<char>>,
) -> bool {
    e matches ClusterUpgradeError::MembershipDrift { inventory, discovered } && inventory@
        == joined(id_list(target_ids(nodes))) && discovered@ == joined(id_list(members))
}

/// Whether an error says that there was nobody to ask.
pub open spec fn nobody_to_ask(e: ClusterUpgradeError, why: Seq<char>) -> bool {
    e matches ClusterUpgradeError::Discover { detail } && detail@ == why
}

/// The primary of before the roll after an observation: the one remembered, else the
/// first node that says it is one.
pub open spec fn remembered(
    old: Option<Seq<char>>,
    nodes: Seq<ActuationTarget>,
    obs: Seq<NodeObservation>,
) -> Option<Seq<char>> {
    match old {
        Some(id) => Some(id),
        None => if master_at(obs) < obs.len() {
            Some(nodes[master_at(obs)].id@)
        } else {
            None
        },
    }
}

/// The first primary of a view is the first node that says it is one.
proof fn lemma_first_master_is_seen(
    views: Seq<NodeView>,
    nodes: Seq<ActuationTarget>,
    obs: Seq<NodeObservation>,
    list: Seq<SlaveModel>,
)
    requires
        views.len() == nodes.len(),
        obs.len() == nodes.len(),
        forall|i: int|
            0 <= i < views.len() ==> is_view_of(#[trigger] views[i], nodes[i], obs[i], list),
    ensures
        first_master(views) == master_at(obs),
    decreases views.len(),
{
    if views.len() > 0 {
        assert(is_view_of(views[0], nodes[0], obs[0], list));
        if !(views[0].role is Master) {
            let v = views.drop_first();
            let n = nodes.drop_first();
            let o = obs.drop_first();
            assert forall|i: int| 0 <= i < v.len() implies is_view_of(
                #[trigger] v[i],
                n[i],
                o[i],
                list,
            ) by {
                assert(v[i] == views[i + 1]);
            }
            lemma_first_master_is_seen(v, n, o, list);
        }
    }
}

/// A swap of a binary that was asked for.
pub struct Swap {
    /// The node.
    pub target: ActuationTarget,
    /// What came of it.
    pub answer: Result<(), ClusterUpgradeError>,
}

/// One step of a roll.
pub struct StepTaken {
    /// The observation that it was taken on.
    pub view: ClusterView,
    /// The primary of before the roll, as far as it was known.
    pub old_primary: Option<Seq<char>>,
    /// The step.
    pub step: UpgradeStep,
    /// The swaps of the step.
    pub swaps: Seq<Swap>,
    /// The actions of the fence in the step.
    pub fence: Seq<FenceEvent>,
    /// What came of the step.
    pub outcome: Result<(), ClusterUpgradeError>,
    /// What came of the observation behind it; none where the step failed.
    pub watched: Option<Result<(), ClusterUpgradeError>>,
    /// What the nodes were asked in the step and in the observation behind it.
    pub asks: Seq<Sighting>,
    /// The observation that stands after it.
    pub after: ClusterView,
}

/// Whether the swaps of a step are those of one node, where the inventory has it.
pub open spec fn swaps_only(inventory: Inventory, who: Option<Seq<char>>, swaps: Seq<Swap>) -> bool {
    match who {
        Some(id) => match inventory.target(id) {
            Some(t) => swaps.len() == 1 && swaps[0].target == t,
            None => swaps.len() == 0,
        },
        None => swaps.len() == 0,
    }
}

/// Why a promotion is refused before the cluster is touched.
pub enum PromoteRefusal {
    /// No replica may be promoted.
    NoCandidate,
    /// No primary was observed.
    OldPrimaryUnknown,
    /// A node is not in the inventory.
    Unknown(Seq<char>),
}

/// What is wrong with a promotion before the cluster is touched.
pub open spec fn promote_refusal(
    view: ClusterView,
    old_primary: Option<Seq<char>>,
    inventory: Inventory,
) -> Option<PromoteRefusal> {
    match view.candidate() {
        None => Some(PromoteRefusal::NoCandidate),
        Some(b) => match old_primary {
            None => Some(PromoteRefusal::OldPrimaryUnknown),
            Some(id) => if inventory.target(id) is None {
                Some(PromoteRefusal::Unknown(id))
            } else if inventory.target(view.nodes@[b].id@) is None {
                Some(PromoteRefusal::Unknown(view.nodes@[b].id@))
            } else {
                None
            },
        },
    }
}

/// Whether the actions of a promotion are those of the fence, with these answers of the
/// old primary and this outcome.
pub open spec fn fenced(
    view: ClusterView,
    old_primary: Option<Seq<char>>,
    inventory: Inventory,
    freeze: FreezeCfg,
    fence: Seq<FenceEvent>,
    seen: Seq<NodeObservation>,
    outcome: FenceOutcome,
) -> bool {
    let primary = inventory.target(old_primary->0)->0;
    let candidate = inventory.target(view.nodes@[view.candidate()->0].id@)->0;
    &&& fence_readings(
        listed_lags(seen, candidate),
        outcome,
        freeze.max_drain_polls as int,
    )
    &&& fence == fence_trace(primary, candidate, freeze, seen, outcome)
}

/// Whether the actions of a promotion are those of the fence.
pub open spec fn some_fence(
    view: ClusterView,
    old_primary: Option<Seq<char>>,
    inventory: Inventory,
    freeze: FreezeCfg,
    fence: Seq<FenceEvent>,
) -> bool {
    exists|seen: Seq<NodeObservation>, outcome: FenceOutcome|
        #[trigger] fenced(view, old_primary, inventory, freeze, fence, seen, outcome)
}

/// Whether a step was the one that its observation calls for, and did what such a
/// step does.
pub open spec fn step_obeyed(inventory: Inventory, freeze: FreezeCfg, s: StepTaken) -> bool {
    &&& s.step == rolling_step(progress_of(s.view))
    &&& !(s.step is Done)
    &&& match s.step {
        UpgradeStep::UpgradeReplica => s.fence.len() == 0 && swaps_only(
            inventory,
            next_replica(s.view.nodes@, s.view.target_version@, s.view.nodes@.len()),
            s.swaps,
        ),
        UpgradeStep::UpgradeOldPrimary => s.fence.len() == 0 && swaps_only(
            inventory,
            s.old_primary,
            s.swaps,
        ),
        UpgradeStep::Promote => s.swaps.len() == 0 && match promote_refusal(
            s.view,
            s.old_primary,
            inventory,
        ) {
            Some(_) => s.fence.len() == 0,
            None => some_fence(s.view, s.old_primary, inventory, freeze, s.fence),
        },
        _ => s.swaps.len() == 0 && s.fence.len() == 0 && s.outcome is Ok,
    }
    &&& s.watched is Some <==> s.outcome is Ok
}

/// Whether a step went well, and the observation behind it too.
pub open spec fn went_well(s: StepTaken) -> bool {
    s.outcome is Ok && (s.watched matches Some(w) && w is Ok)
}

/// Whether the steps of a roll were taken as they have to be: each as its observation
/// calls for, and none after one that failed.
pub open spec fn steps_obeyed(inventory: Inventory, freeze: FreezeCfg, steps: Seq<StepTaken>) -> bool {
    &&& forall|i: int|
        0 <= i < steps.len() ==> step_obeyed(inventory, freeze, #[trigger] steps[i])
    &&& forall|i: int| 0 <= i < steps.len() - 1 ==> went_well(#[trigger] steps[i])
}

/// The swaps of steps, in order.
pub open spec fn all_swaps(steps: Seq<StepTaken>) -> Seq<Swap>
    decreases steps.len(),
{
    if steps.len() == 0 {
        Seq::empty()
    } else {
        all_swaps(steps.drop_last()) + steps.last().swaps
    }
}

/// The pauses outside the fence that a step brings: one tick where it was watched.
pub open spec fn step_rests(s: StepTaken, tick_ms: u64) -> Seq<u64> {
    if s.watched is Some {
        seq![tick_ms]
    } else {
        Seq::empty()
    }
}

/// The pauses outside the fence that steps bring, in order.
pub open spec fn all_rests(steps: Seq<StepTaken>, tick_ms: u64) -> Seq<u64>
    decreases steps.len(),
{
    if steps.len() == 0 {
        Seq::empty()
    } else {
        all_rests(steps.drop_last(), tick_ms) + step_rests(steps.last(), tick_ms)
    }
}

/// The actions of the fence in steps, in order.
pub open spec fn all_fences(steps: Seq<StepTaken>) -> Seq<FenceEvent>
    decreases steps.len(),
{
    if steps.len() == 0 {
        Seq::empty()
    } else {
        all_fences(steps.drop_last()) + steps.last().fence
    }
}

/// What the nodes were asked in steps, in order.
pub open spec fn all_asks(steps: Seq<StepTaken>) -> Seq<Sighting>
    decreases steps.len(),
{
    if steps.len() == 0 {
        Seq::empty()
    } else {
        all_asks(steps.drop_last()) + steps.last().asks
    }
}

/// A step of a roll is a safe one. The old primary is swapped only once it is a
/// replica. A promotion comes only when no replica is left to upgrade or to catch up,
/// and on a quorum. The next replica is taken only when the one before is back in sync.
pub proof fn law_roll_steps_are_safe(inventory: Inventory, freeze: FreezeCfg, s: StepTaken)
    requires
        step_obeyed(inventory, freeze, s),
        s.view.nodes@.len() <= usize::MAX,
    ensures
        s.step is UpgradeOldPrimary ==> s.view.demoted(),
        s.step is Promote ==> !s.view.demoted() && !s.view.catching_up() && s.view.raft_quorum
            && crate::cluster_upgrade::to_upgrade_count(
            s.view.nodes@,
            s.view.target_version@,
            s.view.nodes@.len(),
        ) == 0,
        s.step is UpgradeReplica ==> !s.view.demoted() && !s.view.catching_up(),
        s.swaps.len() <= 1,
{
    crate::cluster_upgrade::lemma_count_bound(
        s.view.nodes@,
        s.view.target_version@,
        s.view.nodes@.len(),
    );
}

/// In a whole roll a failover is commanded only by a promotion, and directly behind an
/// answer of the old primary that lists the lag of that very candidate as zero.
pub proof fn law_roll_fails_over_drained(
    inventory: Inventory,
    freeze: FreezeCfg,
    s: StepTaken,
    i: int,
)
    requires
        step_obeyed(inventory, freeze, s),
        0 <= i < s.fence.len(),
        s.fence[i] is Failover,
    ensures
        s.step is Promote,
        i >= 2,
        s.fence[i - 1] matches FenceEvent::Poll { of, obs, .. } && Some(of) == inventory.target(
            s.old_primary->0,
        ) && listed_lag(obs, s.fence[i]->candidate) == Some(0int),
{
    let (seen, outcome): (Seq<NodeObservation>, FenceOutcome) = choose|
        seen: Seq<NodeObservation>,
        outcome: FenceOutcome,
    | #[trigger]
        fenced(s.view, s.old_primary, inventory, freeze, s.fence, seen, outcome);
    law_failover_only_when_drained(
        inventory.target(s.old_primary->0)->0,
        inventory.target(s.view.nodes@[s.view.candidate()->0].id@)->0,
        freeze,
        seen,
        outcome,
        i,
    );
}

/// The driver of a roll: the seams to the cluster, the setup and what was observed.
pub struct LiveCluster<C: ClusterClient, U: NodeUpgrader, P: Pauser, S: Sleeper> {
    /// The commands to the nodes, the write freeze and the pauses.
    pub seams: Seams<C, P, S>,
    /// The swap of a binary.
    pub upgrader: U,
    /// The static map.
    pub inventory: Inventory,
    /// The version to roll to.
    pub target_version: String,
    /// The lag up to which a replica counts as in sync.
    pub max_lag: u64,
    /// The primary of before the roll, once one was observed.
    pub old_primary_id: Option<String>,
    /// The last observation.
    pub view: ClusterView,
    /// How the roll is paced.
    pub poll: PollCfg,
    /// How the fence is tuned.
    pub freeze: FreezeCfg,
    /// The steps so far.
    pub steps: Ghost<Seq<StepTaken>>,
}

impl<C: ClusterClient, U: NodeUpgrader, P: Pauser, S: Sleeper> LiveCluster<C, U, P, S> {
    /// Whether the setup is the same.
    pub open spec fn same_setup(self, other: Self) -> bool {
        &&& self.inventory == other.inventory
        &&& self.target_version == other.target_version
        &&& self.max_lag == other.max_lag
        &&& self.poll == other.poll
        &&& self.freeze == other.freeze
        &&& self.seams.same_ways(other.seams)
    }

    /// Whether the setup and what is known are the same.
    pub open spec fn same_knowledge(self, other: Self) -> bool {
        &&& self.same_setup(other)
        &&& self.old_primary_id == other.old_primary_id
        &&& self.view == other.view
    }

    /// Whether nothing was done to the cluster, and no step taken.
    pub open spec fn same_actions(self, other: Self) -> bool {
        &&& self.seams.history() == other.seams.history()
        &&& self.upgrader == other.upgrader
        &&& self.steps == other.steps
    }

    /// Whether `v` is what states and a quorum signal say.
    pub open spec fn observed(
        self,
        v: ClusterView,
        obs: Seq<NodeObservation>,
        q: QuorumObservation,
    ) -> bool {
        &&& are_views_of(v.nodes@, self.inventory.nodes@, obs)
        &&& v.target_version@ == normalized(self.target_version@)
        &&& v.max_lag == self.max_lag
        &&& v.raft_quorum == (q.state_ok && q.raft_leader_present)
        &&& opt_string(v.old_primary_id) == remembered(
            opt_string(self.old_primary_id),
            self.inventory.nodes@,
            obs,
        )
    }

    /// Whether a result is what the answers of an observation come to.
    pub open spec fn round_result(
        self,
        round: Round,
        r: Result<ClusterView, ClusterUpgradeError>,
    ) -> bool {
        let nodes = self.inventory.nodes@;
        if round.members.len() == 0 {
            r matches Err(e) && nobody_to_ask(e, "no inventory nodes to query"@)
        } else {
            match round.members.last() {
                Err(e) => r == Err::<ClusterView, ClusterUpgradeError>(e),
                Ok(ids) => if !same_members(target_ids(nodes), ids) {
                    r matches Err(e) && names_drift(e, nodes, ids)
                } else if !round.all_seen(nodes) {
                    round.nodes.len() > 0 && (round.nodes.last() matches Err(e) && r == Err::<
                        ClusterView,
                        ClusterUpgradeError,
                    >(e))
                } else if !one_shard_each(round.states()) {
                    r matches Err(e) && names_multi_shard(e, nodes, round.states())
                } else {
                    match round.quorum.last() {
                        Err(e) => r == Err::<ClusterView, ClusterUpgradeError>(e),
                        Ok(q) => r matches Ok(v) && self.observed(v, round.states(), q),
                    }
                },
            }
        }
    }

    /// Whether an observation with these answers leads from this state to another one
    /// and to a result.
    pub open spec fn refreshed_to(
        self,
        post: Self,
        round: Round,
        r: Result<ClusterView, ClusterUpgradeError>,
    ) -> bool {
        let nodes = self.inventory.nodes@;
        &&& round.well_asked(nodes)
        &&& self.round_result(round, r)
        &&& post.seams.client().asked() == self.seams.client().asked() + round.sightings(nodes)
        &&& opt_string(post.old_primary_id) == (if round.got_to_quorum(nodes) {
            remembered(opt_string(self.old_primary_id), nodes, round.states())
        } else {
            opt_string(self.old_primary_id)
        })
        &&& match r {
            Ok(v) => same_view(post.view, v),
            Err(_) => post.view == self.view,
        }
    }

    /// A driver that has observed nothing yet.
    pub fn new(client: C, upgrader: U, pauser: P, sleeper: S, config: DriverConfig) -> (r: Self)
        ensures
            r.seams.client() == client,
            r.seams.pauser() == pauser,
            r.seams.sleeper() == sleeper,
            r.upgrader == upgrader,
            r.inventory == config.inventory,
            r.target_version == config.target_version,
            r.max_lag == config.max_lag,
            r.poll == config.poll,
            r.freeze == config.freeze,
            r.old_primary_id is None,
            r.view.nodes@.len() == 0,
            r.view.target_version@ == normalized(config.target_version@),
            r.view.max_lag == config.max_lag,
            !r.view.raft_quorum,
            r.view.old_primary_id is None,
            r.seams.history().len() == 0,
            r.seams.rests().len() == 0,
            r.steps@.len() == 0,
    {
        let view = ClusterView {
            nodes: Vec::new(),
            target_version: normalize_version(config.target_version.as_str()),
            max_lag: config.max_lag,
            raft_quorum: false,
            old_primary_id: None,
        };
        LiveCluster {
            seams: Seams::new(client, pauser, sleeper),
            upgrader,
            inventory: config.inventory,
            target_version: config.target_version,
            max_lag: config.max_lag,
            old_primary_id: None,
            view,
            poll: config.poll,
            freeze: config.freeze,
            steps: Ghost(Seq::empty()),
        }
    }

    /// The primary of before the roll, once one was observed.
    pub fn old_primary_id(&self) -> (r: Option<&str>)
        ensures
            match r {
                Some(id) => self.old_primary_id is Some && id@ == self.old_primary_id->0@,
                None => self.old_primary_id is None,
            },
    {
        match &self.old_primary_id {
            Some(id) => Some(id.as_str()),
            None => None,
        }
    }

    /// The last observation.
    pub fn view(&self) -> (r: &ClusterView)
        ensures
            *r == self.view,
    {
        &self.view
    }

    /// Asks the nodes in order for the members until one answers; the last failure
    /// stands where none does. The answers come back for the proofs.
    fn discover_members_any_seed(&mut self) -> (r: (
        Result<Vec<String>, ClusterUpgradeError>,
        Ghost<Seq<Result<Seq<Seq<char>>, ClusterUpgradeError>>>,
    ))
        ensures
            final(self).same_knowledge(*old(self)),
            final(self).same_actions(*old(self)),
            final(self).seams.rests() == old(self).seams.rests(),
            asked_until_answered(r.1@, old(self).inventory.nodes@.len()),
            final(self).seams.client().asked() == old(self).seams.client().asked() + member_sightings(
                old(self).inventory.nodes@,
                r.1@,
            ),
            if r.1@.len() == 0 {
                r.0 matches Err(e) && nobody_to_ask(e, "no inventory nodes to query"@)
            } else {
                members_seen(r.0) == r.1@.last()
            },
    {
        let mut last: Option<ClusterUpgradeError> = None;
        let ghost mut answers: Seq<Result<Seq<Seq<char>>, ClusterUpgradeError>> = Seq::empty();
        let ghost nodes = self.inventory.nodes@;
        assert(self.seams.client().asked() + member_sightings(nodes, answers) =~= self.seams.client().asked());
        let mut i: usize = 0;
        while i < self.inventory.nodes.len()
            invariant
                self.same_knowledge(*old(self)),
                self.same_actions(*old(self)),
                self.seams.rests() == old(self).seams.rests(),
                nodes == old(self).inventory.nodes@,
                i <= nodes.len(),
                answers.len() == i,
                forall|j: int| 0 <= j < i ==> (#[trigger] answers[j]) is Err,
                self.seams.client().asked() == old(self).seams.client().asked() + member_sightings(nodes, answers),
                i == 0 ==> last is None,
                i > 0 ==> last is Some && answers.last() == Err::<
                    Seq<Seq<char>>,
                    ClusterUpgradeError,
                >(last->0),
            decreases nodes.len() - i,
        {
            let answer = self.seams.discover_members(&self.inventory.nodes[i]);
            proof {
                answers = answers.push(members_seen(answer));
            }
            assert(self.seams.client().asked() =~= old(self).seams.client().asked() + member_sightings(nodes, answers));
            match answer {
                Ok(ids) => {
                    return (Ok(ids), Ghost(answers));
                },
                Err(e) => {
                    last = Some(e);
                },
            }
            i = i + 1;
        }
        match last {
            Some(e) => (Err(e), Ghost(answers)),
            None => (
                Err(
                    ClusterUpgradeError::Discover {
                        detail: "no inventory nodes to query".to_owned(),
                    },
                ),
                Ghost(answers),
            ),
        }
    }

    /// Asks the nodes in order for the quorum signal until one answers; the last
    /// failure stands where none does. The answers come back for the proofs.
    fn observe_quorum_any_seed(&mut self) -> (r: (
        Result<QuorumObservation, ClusterUpgradeError>,
        Ghost<Seq<Result<QuorumObservation, ClusterUpgradeError>>>,
    ))
        ensures
            final(self).same_knowledge(*old(self)),
            final(self).same_actions(*old(self)),
            final(self).seams.rests() == old(self).seams.rests(),
            asked_until_answered(r.1@, old(self).inventory.nodes@.len()),
            final(self).seams.client().asked() == old(self).seams.client().asked() + quorum_sightings(
                old(self).inventory.nodes@,
                r.1@,
            ),
            if r.1@.len() == 0 {
                r.0 matches Err(e) && nobody_to_ask(e, "no inventory nodes to read quorum from"@)
            } else {
                r.0 == r.1@.last()
            },
    {
        let mut last: Option<ClusterUpgradeError> = None;
        let ghost mut answers: Seq<Result<QuorumObservation, ClusterUpgradeError>> = Seq::empty();
        let ghost nodes = self.inventory.nodes@;
        assert(self.seams.client().asked() + quorum_sightings(nodes, answers) =~= self.seams.client().asked());
        let mut i: usize = 0;
        while i < self.inventory.nodes.len()
            invariant
                self.same_knowledge(*old(self)),
                self.same_actions(*old(self)),
                self.seams.rests() == old(self).seams.rests(),
                nodes == old(self).inventory.nodes@,
                i <= nodes.len(),
                answers.len() == i,
                forall|j: int| 0 <= j < i ==> (#[trigger] answers[j]) is Err,
                self.seams.client().asked() == old(self).seams.client().asked() + quorum_sightings(nodes, answers),
                i == 0 ==> last is None,
                i > 0 ==> last is Some && answers.last() == Err::<
                    QuorumObservation,
                    ClusterUpgradeError,
                >(last->0),
            decreases nodes.len() - i,
        {
            let answer = self.seams.observe_quorum(&self.inventory.nodes[i]);
            proof {
                answers = answers.push(answer);
            }
            assert(self.seams.client().asked() =~= old(self).seams.client().asked() + quorum_sightings(nodes, answers));
            match answer {
                Ok(q) => {
                    return (Ok(q), Ghost(answers));
                },
                Err(e) => {
                    last = Some(e);
                },
            }
            i = i + 1;
        }
        match last {
            Some(e) => (Err(e), Ghost(answers)),
            None => (
                Err(
                    ClusterUpgradeError::Discover {
                        detail: "no inventory nodes to read quorum from".to_owned(),
                    },
                ),
                Ghost(answers),
            ),
        }
    }

    /// Observes the nodes of the inventory in order until one does not answer. The
    /// answers come back for the proofs.
    fn observe_all(&mut self) -> (r: (
        Result<Vec<NodeObservation>, ClusterUpgradeError>,
        Ghost<Seq<Result<NodeObservation, ClusterUpgradeError>>>,
    ))
        ensures
            final(self).same_knowledge(*old(self)),
            final(self).same_actions(*old(self)),
            final(self).seams.rests() == old(self).seams.rests(),
            asked_while_answered(r.1@, old(self).inventory.nodes@.len()),
            final(self).seams.client().asked() == old(self).seams.client().asked() + node_sightings(
                old(self).inventory.nodes@,
                r.1@,
            ),
            match r.0 {
                Ok(obs) => {
                    &&& r.1@.len() == old(self).inventory.nodes@.len()
                    &&& obs@.len() == r.1@.len()
                    &&& forall|i: int|
                        0 <= i < obs@.len() ==> r.1@[i] == Ok::<
                            NodeObservation,
                            ClusterUpgradeError,
                        >(#[trigger] obs@[i])
                },
                Err(e) => r.1@.len() > 0 && r.1@.last() == Err::<
                    NodeObservation,
                    ClusterUpgradeError,
                >(e),
            },
    {
        let mut obs: Vec<NodeObservation> = Vec::new();
        let ghost mut answers: Seq<Result<NodeObservation, ClusterUpgradeError>> = Seq::empty();
        let ghost nodes = self.inventory.nodes@;
        assert(self.seams.client().asked() + node_sightings(nodes, answers) =~= self.seams.client().asked());
        let mut i: usize = 0;
        while i < self.inventory.nodes.len()
            invariant
                self.same_knowledge(*old(self)),
                self.same_actions(*old(self)),
                self.seams.rests() == old(self).seams.rests(),
                nodes == old(self).inventory.nodes@,
                i <= nodes.len(),
                answers.len() == i,
                obs@.len() == i,
                forall|j: int|
                    0 <= j < i ==> answers[j] == Ok::<NodeObservation, ClusterUpgradeError>(
                        #[trigger] obs@[j],
                    ),
                forall|j: int| 0 <= j < i ==> (#[trigger] answers[j]) is Ok,
                self.seams.client().asked() == old(self).seams.client().asked() + node_sightings(nodes, answers),
            decreases nodes.len() - i,
        {
            let answer = self.seams.observe_node(&self.inventory.nodes[i]);
            proof {
                answers = answers.push(answer);
            }
            assert(self.seams.client().asked() =~= old(self).seams.client().asked() + node_sightings(nodes, answers));
            match answer {
                Ok(o) => {
                    obs.push(o);
                },
                Err(e) => {
                    return (Err(e), Ghost(answers));
                },
            }
            i = i + 1;
        }
        (Ok(obs), Ghost(answers))
    }

    /// Observes the cluster: the members must be those of the inventory, no node may
    /// have more than one shard, and the primary of before the roll is remembered the
    /// first time one is seen. On an error the last observation stands.
    pub fn refresh(&mut self) -> (r: Result<ClusterView, ClusterUpgradeError>)
        ensures
            final(self).same_setup(*old(self)),
            final(self).same_actions(*old(self)),
            final(self).seams.rests() == old(self).seams.rests(),
            old(self).old_primary_id is Some ==> final(self).old_primary_id == old(
                self,
            ).old_primary_id,
            old(self).inventory.nodes@.len() == 0 ==> (r matches Err(e) && nobody_to_ask(
                e,
                "no inventory nodes to query"@,
            )),
            exists|round: Round| #[trigger] old(self).refreshed_to(*final(self), round, r),
    {
        let ghost nodes = self.inventory.nodes@;
        let ghost start = self.seams.client().asked();
        let (found, Ghost(asked_members)) = self.discover_members_any_seed();
        let ghost mut round = Round {
            members: asked_members,
            nodes: Seq::empty(),
            quorum: Seq::empty(),
        };
        assert(self.seams.client().asked() =~= start + round.sightings(nodes));
        let members = match found {
            Ok(ids) => ids,
            Err(e) => {
                let r = Err::<ClusterView, ClusterUpgradeError>(e);
                assert(old(self).refreshed_to(*self, round, r));
                return r;
            },
        };
        if let Err(e) = check_membership(&self.inventory, &members) {
            let r = Err::<ClusterView, ClusterUpgradeError>(e);
            assert(old(self).refreshed_to(*self, round, r));
            return r;
        }
        let (seen, Ghost(asked_nodes)) = self.observe_all();
        proof {
            round = Round { members: asked_members, nodes: asked_nodes, quorum: Seq::empty() };
        }
        assert(self.seams.client().asked() =~= start + round.sightings(nodes));
        let obs = match seen {
            Ok(obs) => obs,
            Err(e) => {
                assert(!round.all_seen(nodes)) by {
                    assert(round.nodes[round.nodes.len() - 1] is Err);
                }
                let r = Err::<ClusterView, ClusterUpgradeError>(e);
                assert(old(self).refreshed_to(*self, round, r));
                return r;
            },
        };
        assert(round.states() =~= obs@) by {
            assert forall|i: int| 0 <= i < obs@.len() implies round.states()[i] == obs@[i] by {
                assert(round.nodes[i] == Ok::<NodeObservation, ClusterUpgradeError>(obs@[i]));
            }
        }
        assert(round.all_seen(nodes)) by {
            assert forall|i: int| 0 <= i < round.nodes.len() implies (
            #[trigger] round.nodes[i]) is Ok by {
                assert(round.nodes[i] == Ok::<NodeObservation, ClusterUpgradeError>(obs@[i]));
            }
        }
        if let Err(e) = check_single_shard(&self.inventory.nodes, &obs) {
            let r = Err::<ClusterView, ClusterUpgradeError>(e);
            assert(old(self).refreshed_to(*self, round, r));
            return r;
        }
        let nodes_seen = assemble_nodes(&self.inventory.nodes, &obs);
        proof {
            lemma_first_master_is_seen(nodes_seen@, nodes, obs@, master_list(obs@));
            lemma_first_master(nodes_seen@);
        }
        let captured_id = capture_primary(&self.old_primary_id, &nodes_seen);
        self.old_primary_id = captured_id;
        assert(opt_string(self.old_primary_id) == remembered(
            opt_string(old(self).old_primary_id),
            nodes,
            obs@,
        ));
        let (told, Ghost(asked_quorum)) = self.observe_quorum_any_seed();
        proof {
            round =
            Round { members: asked_members, nodes: asked_nodes, quorum: asked_quorum };
        }
        assert(round.states() =~= obs@) by {
            assert forall|i: int| 0 <= i < obs@.len() implies round.states()[i] == obs@[i] by {
                assert(round.nodes[i] == Ok::<NodeObservation, ClusterUpgradeError>(obs@[i]));
            }
        }
        assert(self.seams.client().asked() =~= start + round.sightings(nodes));
        assert(nodes.len() > 0);
        let quorum = match told {
            Ok(q) => q,
            Err(e) => {
                let r = Err::<ClusterView, ClusterUpgradeError>(e);
                assert(old(self).refreshed_to(*self, round, r));
                return r;
            },
        };
        let old_primary_id = match &self.old_primary_id {
            Some(id) => Some(id.clone()),
            None => None,
        };
        let view = ClusterView {
            nodes: nodes_seen,
            target_version: normalize_version(self.target_version.as_str()),
            max_lag: self.max_lag,
            raft_quorum: quorum.has_quorum(),
            old_primary_id,
        };
        self.view = copy_view(&view);
        let r = Ok::<ClusterView, ClusterUpgradeError>(view);
        assert(old(self).observed(view, round.states(), quorum));
        assert(old(self).refreshed_to(*self, round, r));
        r
    }

    /// What the last observation says of the progress.
    pub fn progress(&self) -> (r: Progress)
        ensures
            r == progress_of(self.view),
    {
        Progress {
            replicas_to_upgrade: self.view.replicas_to_upgrade(),
            replica_catching_up: self.view.replica_catching_up(),
            promotion: self.view.promotion_safety(),
            primary_demoted: self.view.primary_demoted(),
            old_primary_upgraded: self.view.old_primary_upgraded(),
            master_on_target: self.view.master_on_target(),
        }
    }

    /// Whether this state differs from another one only by the swap of a node, where
    /// the inventory has it, with a result.
    pub open spec fn swapped_from(
        self,
        pre: Self,
        id: Seq<char>,
        r: Result<(), ClusterUpgradeError>,
    ) -> bool {
        &&& self.same_knowledge(pre)
        &&& self.seams == pre.seams
        &&& self.steps == pre.steps
        &&& match pre.inventory.target(id) {
            Some(target) => self.upgrader.asked() == pre.upgrader.asked().push(
                Swap { target, answer: r },
            ),
            None => self.upgrader == pre.upgrader && (r matches Err(e) && (e matches
                ClusterUpgradeError::UnknownNode { id: d } && d@ == id)),
        }
    }

    /// Swaps the binary of the node with an id.
    fn upgrade_node(&mut self, id: &str) -> (r: Result<(), ClusterUpgradeError>)
        ensures
            final(self).swapped_from(*old(self), id@, r),
    {
        let target = match self.inventory.get(id) {
            Some(t) => t.copy(),
            None => {
                return Err(ClusterUpgradeError::UnknownNode { id: copy_str(id) });
            },
        };
        self.upgrader.upgrade(&target)
    }

    /// Upgrades the replica with the least id among those on another version than the
    /// target.
    pub fn upgrade_next_replica(&mut self) -> (r: Result<(), ClusterUpgradeError>)
        ensures
            match next_replica(
                old(self).view.nodes@,
                old(self).view.target_version@,
                old(self).view.nodes@.len(),
            ) {
                None => *final(self) == *old(self) && r == Err::<(), ClusterUpgradeError>(
                    ClusterUpgradeError::NoReplicaToUpgrade,
                ),
                Some(id) => final(self).swapped_from(*old(self), id, r),
            },
    {
        let mut best: Option<String> = None;
        for i in 0..self.view.nodes.len()
            invariant
                *self == *old(self),
                opt_string(best) == next_replica(
                    self.view.nodes@,
                    self.view.target_version@,
                    i as nat,
                ),
        {
            let n = &self.view.nodes[i];
            if n.role == NodeRole::Replica && !n.is_upgraded(self.view.target_version.as_str()) {
                let take = match &best {
                    Some(b) => crate::idset::before(n.id.as_str(), b.as_str()),
                    None => true,
                };
                if take {
                    best = Some(n.id.clone());
                }
            }
        }
        match best {
            Some(id) => self.upgrade_node(id.as_str()),
            None => Err(ClusterUpgradeError::NoReplicaToUpgrade),
        }
    }

    /// Upgrades the primary of before the roll.
    pub fn upgrade_old_primary(&mut self) -> (r: Result<(), ClusterUpgradeError>)
        ensures
            match old(self).old_primary_id {
                None => *final(self) == *old(self) && r == Err::<(), ClusterUpgradeError>(
                    ClusterUpgradeError::OldPrimaryUnknown,
                ),
                Some(id) => final(self).swapped_from(*old(self), id@, r),
            },
    {
        let id = match &self.old_primary_id {
            Some(id) => id.clone(),
            None => {
                return Err(ClusterUpgradeError::OldPrimaryUnknown);
            },
        };
        self.upgrade_node(id.as_str())
    }

    /// Whether this state differs from another one only by actions of the fence.
    pub open spec fn fenced_from(self, pre: Self) -> bool {
        &&& self.same_knowledge(pre)
        &&& self.upgrader == pre.upgrader
        &&& self.steps == pre.steps
    }

    /// Whether this state differs from another one only by these actions of the fence,
    /// and these took place.
    pub open spec fn acted_from(self, pre: Self, fence: Seq<FenceEvent>) -> bool {
        &&& self.fenced_from(pre)
        &&& self.seams.acted_from(pre.seams, fence)
    }

    /// Reads the candidate's lag until it is exactly zero, at most as often as the
    /// setup says. The answers of the old primary come back for the proofs.
    fn drain_candidate_to_zero(
        &mut self,
        old_primary: &ActuationTarget,
        candidate: &ActuationTarget,
    ) -> (r: (Result<(), ClusterUpgradeError>, Ghost<Seq<NodeObservation>>))
        ensures
            ({
                let max = old(self).freeze.max_drain_polls as int;
                let lags = listed_lags(r.1@, *candidate);
                let polls = poll_events(
                    *old_primary,
                    *candidate,
                    r.1@,
                    old(self).freeze.drain_poll_delay_ms,
                );
                match r.0 {
                    Ok(_) => fence_readings(lags, FenceOutcome::Drained(Ok(())), max)
                        && final(self).acted_from(*old(self), polls),
                    Err(e) => {
                        ||| {
                            &&& fence_readings(lags, FenceOutcome::TimedOut, max)
                            &&& final(self).acted_from(*old(self), polls)
                            &&& timed_out(e, candidate.id@, old(self).freeze.max_drain_polls)
                        }
                        ||| {
                            &&& fence_readings(lags, FenceOutcome::PollFailed(e), max)
                            &&& final(self).acted_from(
                                *old(self),
                                polls + seq![
                                    FenceEvent::PollFailed { of: *old_primary, error: e },
                                ],
                            )
                        }
                    },
                }
            }),
    {
        let max: u32 = self.freeze.max_drain_polls;
        let ghost delay = self.freeze.drain_poll_delay_ms;
        let ghost mut seen: Seq<NodeObservation> = Seq::empty();
        proof {
            let none = poll_events(*old_primary, *candidate, seen, delay);
            assert(none =~= Seq::<FenceEvent>::empty());
            assert(self.seams.history() + none =~= self.seams.history());
            assert(self.seams.client().asked() + fence_asks(none)
                =~= self.seams.client().asked());
            assert(self.acted_from(*old(self), none));
        }
        let mut n: u32 = 0;
        while n < max
            invariant
                max == old(self).freeze.max_drain_polls,
                delay == old(self).freeze.drain_poll_delay_ms,
                n <= max,
                seen.len() == n,
                forall|i: int|
                    0 <= i < seen.len() ==> listed_lag(#[trigger] seen[i], *candidate) != Some(
                        0int,
                    ),
                self.acted_from(
                    *old(self),
                    poll_events(*old_primary, *candidate, seen, delay),
                ),
            decreases max - n,
        {
            let ghost mid = *self;
            let ghost prior = poll_events(*old_primary, *candidate, seen, delay);
            match self.seams.poll_lag(old_primary, candidate, self.freeze.drain_poll_delay_ms) {
                Err(e) => {
                    proof {
                        Seams::lemma_acted(
                            old(self).seams,
                            mid.seams,
                            self.seams,
                            prior,
                            seq![FenceEvent::PollFailed { of: *old_primary, error: e }],
                        );
                    }
                    return (Err(e), Ghost(seen));
                },
                Ok((lag, answer)) => {
                    let ghost obs = answer@;
                    let ghost event = poll_event(*old_primary, *candidate, obs, delay);
                    proof {
                        Seams::lemma_acted(
                            old(self).seams,
                            mid.seams,
                            self.seams,
                            prior,
                            seq![event],
                        );
                        let before = seen;
                        seen = seen.push(obs);
                        assert(poll_events(*old_primary, *candidate, seen, delay) =~= prior
                            + seq![event]);
                        assert forall|i: int| 0 <= i < seen.len() - 1 implies listed_lag(
                            #[trigger] seen[i],
                            *candidate,
                        ) != Some(0int) by {
                            assert(seen[i] == before[i]);
                        }
                    }
                    if let Some(0) = lag {
                        assert(listed_lags(seen, *candidate).last() == Some(0int));
                        return (Ok(()), Ghost(seen));
                    }
                },
            }
            n = n + 1;
        }
        (
            Err(ClusterUpgradeError::DrainTimeout { candidate: candidate.id.clone(), polls: max }),
            Ghost(seen),
        )
    }

    /// Promotes the best candidate behind the failover-freeze fence: freezes writes on
    /// the old primary, reads the candidate's lag until it is exactly zero, commands
    /// the failover, and releases the freeze. A drain that does not come to zero
    /// releases the freeze and commands nothing.
    pub fn promote_candidate(&mut self) -> (r: Result<(), ClusterUpgradeError>)
        ensures
            final(self).fenced_from(*old(self)),
            old(self).promoted_to(*final(self), r),
    {
        let ghost pre = *self;
        let candidate_id = match self.view.select_promote_candidate() {
            Some(n) => n.id.clone(),
            None => {
                return Err(ClusterUpgradeError::NoCandidate);
            },
        };
        let old_primary_id = match &self.old_primary_id {
            Some(id) => id.clone(),
            None => {
                return Err(ClusterUpgradeError::OldPrimaryUnknown);
            },
        };
        let old_primary = match self.inventory.get(old_primary_id.as_str()) {
            Some(t) => t.copy(),
            None => {
                return Err(ClusterUpgradeError::UnknownNode { id: old_primary_id });
            },
        };
        let candidate = match self.inventory.get(candidate_id.as_str()) {
            Some(t) => t.copy(),
            None => {
                return Err(ClusterUpgradeError::UnknownNode { id: candidate_id });
            },
        };
        proof {
            lemma_target_at(self.inventory.nodes@, candidate_id@);
        }
        let auth = match &old_primary.auth {
            Some(a) => Some(a.clone()),
            None => None,
        };
        let target = PauseTarget {
            resp_addr: old_primary.resp_addr.clone(),
            auth,
            window_ms: self.freeze.pause_window_ms,
        };
        let ghost to = target@;
        let ghost freeze = self.freeze;
        assert(to == freeze_of(old_primary, freeze.pause_window_ms));
        let frozen = self.seams.freeze_writes(&target);
        let ghost first = seq![FenceEvent::Freeze { to, answer: frozen }];
        let ghost held = self.seams;
        if let Err(e) = frozen {
            proof {
                let seen = Seq::<NodeObservation>::empty();
                let outcome = FenceOutcome::FreezeRefused(e);
                let fence = fence_trace(old_primary, candidate, freeze, seen, outcome);
                assert(fence =~= first);
                assert(pre.fence_run(*self, fence, seen, outcome));
            }
            return Err(ClusterUpgradeError::Pause(e));
        }
        assert(frozen->Ok_0 == ());
        let (drained, Ghost(seen)) = self.drain_candidate_to_zero(&old_primary, &candidate);
        let ghost polls = poll_events(
            old_primary,
            candidate,
            seen,
            freeze.drain_poll_delay_ms,
        );
        let ghost read = self.seams;
        let ghost release = seq![FenceEvent::Release { to }];
        if let Err(e) = drained {
            self.seams.release_writes(&target);
            proof {
                let timeout = fence_readings(
                    listed_lags(seen, candidate),
                    FenceOutcome::TimedOut,
                    freeze.max_drain_polls as int,
                ) && read.acted_from(held, polls) && timed_out(
                    e,
                    candidate.id@,
                    freeze.max_drain_polls,
                );
                let outcome = if timeout {
                    FenceOutcome::TimedOut
                } else {
                    FenceOutcome::PollFailed(e)
                };
                let middle = if timeout {
                    polls
                } else {
                    polls + seq![FenceEvent::PollFailed { of: old_primary, error: e }]
                };
                Seams::lemma_acted(pre.seams, held, read, first, middle);
                Seams::lemma_acted(pre.seams, read, self.seams, first + middle, release);
                let fence = fence_trace(old_primary, candidate, freeze, seen, outcome);
                assert(fence =~= first + middle + release);
                assert(pre.fence_run(*self, fence, seen, outcome));
            }
            return Err(e);
        }
        let committed = self.seams.fail_over(&candidate);
        let ghost over = self.seams;
        self.seams.release_writes(&target);
        proof {
            let failover = seq![FenceEvent::Failover { candidate, answer: committed }];
            let outcome = FenceOutcome::Drained(committed);
            Seams::lemma_acted(pre.seams, held, read, first, polls);
            Seams::lemma_acted(pre.seams, read, over, first + polls, failover);
            Seams::lemma_acted(pre.seams, over, self.seams, first + polls + failover, release);
            let fence = fence_trace(old_primary, candidate, freeze, seen, outcome);
            assert(fence =~= first + polls + failover + release);
            assert(pre.fence_run(*self, fence, seen, outcome));
        }
        committed
    }

    /// Whether the fence leads from this state to another one by these actions.
    pub open spec fn fence_run(
        self,
        post: Self,
        fence: Seq<FenceEvent>,
        seen: Seq<NodeObservation>,
        outcome: FenceOutcome,
    ) -> bool {
        &&& fenced(
            self.view,
            opt_string(self.old_primary_id),
            self.inventory,
            self.freeze,
            fence,
            seen,
            outcome,
        )
        &&& post.acted_from(self, fence)
    }

    /// Whether a promotion leads from this state to another one and to a result.
    pub open spec fn promoted_to(self, post: Self, r: Result<(), ClusterUpgradeError>) -> bool {
        match promote_refusal(self.view, opt_string(self.old_primary_id), self.inventory) {
            Some(why) => post == self && (r matches Err(e) && refused_with(e, why)),
            None => exists|
                fence: Seq<FenceEvent>,
                seen: Seq<NodeObservation>,
                outcome: FenceOutcome,
            |
                {
                    &&& #[trigger] self.fence_run(post, fence, seen, outcome)
                    &&& match outcome {
                        FenceOutcome::FreezeRefused(e) => r == Err::<(), ClusterUpgradeError>(
                            ClusterUpgradeError::Pause(e),
                        ),
                        FenceOutcome::TimedOut => r matches Err(e) && timed_out(
                            e,
                            self.view.nodes@[self.view.candidate()->0].id@,
                            self.freeze.max_drain_polls,
                        ),
                        FenceOutcome::PollFailed(e) => r == Err::<(), ClusterUpgradeError>(e),
                        FenceOutcome::Drained(answer) => r == answer,
                    }
                },
        }
    }

    /// Waits a tick and observes the cluster again.
    pub fn wait_for_progress(&mut self) -> (r: Result<(), ClusterUpgradeError>)
        ensures
            final(self).same_setup(*old(self)),
            final(self).same_actions(*old(self)),
            old(self).old_primary_id is Some ==> final(self).old_primary_id == old(
                self,
            ).old_primary_id,
            old(self).waited_to(*final(self), r),
    {
        self.seams.rest(self.poll.tick_delay_ms);
        let ghost rested = *self;
        let seen = self.refresh();
        let r = match seen {
            Ok(_) => Ok(()),
            Err(e) => Err(e),
        };
        proof {
            let round = choose|round: Round| #[trigger] rested.refreshed_to(*self, round, seen);
            assert(old(self).refreshed_to(*self, round, seen));
        }
        r
    }

    /// Whether the sleeper was called for a pause of one tick.
    pub open spec fn rested(self) -> bool {
        call_ensures(S::sleep, (&self.seams.sleeper(), self.poll.tick_delay_ms), ())
    }

    /// Whether a pause of one tick and an observation lead from this state to another
    /// one and to a result.
    pub open spec fn waited_to(self, post: Self, r: Result<(), ClusterUpgradeError>) -> bool {
        &&& self.rested()
        &&& post.seams.rests() == self.seams.rests().push(self.poll.tick_delay_ms)
        &&& exists|round: Round, seen: Result<ClusterView, ClusterUpgradeError>|
            #[trigger] self.refreshed_to(post, round, seen) && r == told(seen)
    }

    /// Whether a step was watched as it has to be: after one that went well, a pause of
    /// one tick and an observation, which stands from then on unless it failed; after
    /// any other, nothing.
    pub open spec fn step_watched(self, s: StepTaken) -> bool {
        match s.watched {
            None => s.asks == fence_asks(s.fence) && s.after == s.view,
            Some(w) => {
                &&& self.rested()
                &&& exists|
                    mid: Self,
                    post: Self,
                    round: Round,
                    seen: Result<ClusterView, ClusterUpgradeError>,
                |
                    {
                        &&& #[trigger] mid.refreshed_to(post, round, seen)
                        &&& mid.same_setup(self)
                        &&& mid.view == s.view
                        &&& opt_string(mid.old_primary_id) == s.old_primary
                        &&& w == told(seen)
                        &&& s.asks == fence_asks(s.fence) + round.sightings(
                            self.inventory.nodes@,
                        )
                        &&& post.view == s.after
                    }
            },
        }
    }

    /// Whether each step was taken on the observation that stood after the one before
    /// it; the first one on that of this state.
    pub open spec fn in_a_row(self, steps: Seq<StepTaken>, last: ClusterView) -> bool {
        &&& steps.len() == 0 ==> last == self.view
        &&& steps.len() > 0 ==> steps[0].view == self.view && steps.last().after == last
        &&& forall|i: int, j: int|
            0 <= i < j < steps.len() && j == i + 1 ==> (#[trigger] steps[j]).view == (
            #[trigger] steps[i]).after
    }

    /// Whether steps lead from this state to another one: each was the one that its
    /// observation calls for, and nothing else was done.
    pub open spec fn rolled_to(self, post: Self, steps: Seq<StepTaken>) -> bool {
        &&& steps_obeyed(self.inventory, self.freeze, steps)
        &&& forall|i: int| 0 <= i < steps.len() ==> self.step_watched(#[trigger] steps[i])
        &&& self.in_a_row(steps, post.view)
        &&& post.steps@ == self.steps@ + steps
        &&& post.upgrader.asked() == self.upgrader.asked() + all_swaps(steps)
        &&& post.seams.history() == self.seams.history() + all_fences(steps)
        &&& post.seams.client().asked() == self.seams.client().asked() + all_asks(steps)
        &&& post.seams.rests() == self.seams.rests() + all_rests(steps, self.poll.tick_delay_ms)
        &&& fence_done(self.seams.pauser(), self.seams.sleeper(), all_fences(steps))
    }
}

/// What an observation comes to for a step: that it went well, or why not.
pub open spec fn told(seen: Result<ClusterView, ClusterUpgradeError>) -> Result<
    (),
    ClusterUpgradeError,
> {
    match seen {
        Ok(_) => Ok(()),
        Err(e) => Err(e),
    }
}

/// Whether an error says that the candidate did not catch up in so many readings.
pub open spec fn timed_out(e: ClusterUpgradeError, id: Seq<char>, max: u32) -> bool {
    e matches ClusterUpgradeError::DrainTimeout { candidate, polls } && candidate@ == id && polls
        == max
}

/// Whether an error states a refusal.
pub open spec fn refused_with(e: ClusterUpgradeError, why: PromoteRefusal) -> bool {
    match why {
        PromoteRefusal::NoCandidate => e is NoCandidate,
        PromoteRefusal::OldPrimaryUnknown => e is OldPrimaryUnknown,
        PromoteRefusal::Unknown(x) => e matches ClusterUpgradeError::UnknownNode { id } && id@ == x,
    }
}

/// An optional number as a mathematical value.
pub open spec fn opt_int(o: Option<u64>) -> Option<int> {
    match o {
        Some(n) => Some(n as int),
        None => None,
    }
}

/// What an observation says of the progress of a roll.
pub open spec fn progress_of(v: ClusterView) -> Progress {
    Progress {
        replicas_to_upgrade: crate::cluster_upgrade::to_upgrade_count(
            v.nodes@,
            v.target_version@,
            v.nodes@.len(),
        ) as usize,
        replica_catching_up: v.catching_up(),
        promotion: v.promotion(),
        primary_demoted: v.demoted(),
        old_primary_upgraded: v.old_on_target(),
        master_on_target: v.master_upgraded(),
    }
}

/// The least id among the first `n` nodes that are still to be upgraded.
pub open spec fn next_replica(nodes: Seq<NodeView>, target: Seq<char>, n: nat) -> Option<Seq<char>>
    decreases n,
{
    if n == 0 {
        None
    } else {
        let rest = next_replica(nodes, target, (n - 1) as nat);
        if !nodes[n - 1].to_upgrade(target) {
            rest
        } else {
            match rest {
                Some(x) => if crate::idset::text_lt(nodes[n - 1].id@, x) {
                    Some(nodes[n - 1].id@)
                } else {
                    rest
                },
                None => Some(nodes[n - 1].id@),
            }
        }
    }
}

/// The next replica is one that is still to be upgraded, and none of them has a
/// smaller id. There is none exactly when no replica is left.
pub proof fn law_next_replica_is_least(nodes: Seq<NodeView>, target: Seq<char>, n: nat)
    requires
        n <= nodes.len(),
    ensures
        match next_replica(nodes, target, n) {
            Some(x) => {
                &&& exists|i: int| 0 <= i < n && (#[trigger] nodes[i]).to_upgrade(target) && nodes[i].id@ == x
                &&& forall|i: int|
                    0 <= i < n && (#[trigger] nodes[i]).to_upgrade(target)
                        ==> !crate::idset::text_lt(nodes[i].id@, x)
            },
            None => forall|i: int| 0 <= i < n ==> !(#[trigger] nodes[i]).to_upgrade(target),
        },
    decreases n,
{
    if n > 0 {
        law_next_replica_is_least(nodes, target, (n - 1) as nat);
        let last = nodes[n - 1];
        if last.to_upgrade(target) {
            match next_replica(nodes, target, (n - 1) as nat) {
                Some(x) => {
                    crate::idset::lemma_text_lt_total(last.id@, x);
                    assert forall|i: int|
                        0 <= i < n && (#[trigger] nodes[i]).to_upgrade(
                            target,
                        ) implies !crate::idset::text_lt(
                        nodes[i].id@,
                        next_replica(nodes, target, n)->0,
                    ) by {
                        let y = next_replica(nodes, target, n)->0;
                        if i == n - 1 {
                            crate::idset::lemma_text_lt_total(last.id@, last.id@);
                        } else if crate::idset::text_lt(nodes[i].id@, y) && y == last.id@
                            && crate::idset::text_lt(last.id@, x) {
                            crate::idset::lemma_text_lt_trans(nodes[i].id@, last.id@, x);
                        }
                    }
                },
                None => {
                    crate::idset::lemma_text_lt_total(last.id@, last.id@);
                },
            }
        }
    }
}

/// The result of a roll: why it stopped, or where it is after its last step.
pub open spec fn roll_outcome(
    steps: Seq<StepTaken>,
    view: ClusterView,
    max_ticks: nat,
    r: Result<UpgradeReport, ClusterUpgradeError>,
) -> bool {
    &&& steps.len() <= max_ticks
    &&& match r {
        Err(e) => steps.len() > 0 && !went_well(steps.last()) && (match steps.last().outcome {
            Err(why) => e == why,
            Ok(_) => steps.last().watched == Some(Err::<(), ClusterUpgradeError>(e)),
        }),
        Ok(report) => {
            &&& steps.len() > 0 ==> went_well(steps.last())
            &&& match report {
                UpgradeReport::Completed => rolling_step(progress_of(view)) is Done,
                UpgradeReport::StalledAfterBudget(step) => {
                    &&& !(step is Done)
                    &&& step == rolling_step(progress_of(view))
                    &&& steps.len() == max_ticks
                },
            }
        },
    }
}

impl<C: ClusterClient, U: NodeUpgrader, P: Pauser, S: Sleeper> LiveCluster<C, U, P, S> {
    /// Takes the step that the last observation calls for, and observes again where it
    /// went well. The step comes back for the proofs.
    fn take_step(&mut self, step: UpgradeStep) -> (r: (
        Result<(), ClusterUpgradeError>,
        Ghost<StepTaken>,
    ))
        requires
            step == rolling_step(progress_of(old(self).view)),
            !(step is Done),
        ensures
            final(self).same_setup(*old(self)),
            old(self).old_primary_id is Some ==> final(self).old_primary_id == old(
                self,
            ).old_primary_id,
            step_obeyed(old(self).inventory, old(self).freeze, r.1@),
            r.1@.view == old(self).view,
            r.1@.old_primary == opt_string(old(self).old_primary_id),
            old(self).step_watched(r.1@),
            r.1@.after == final(self).view,
            final(self).steps@ == old(self).steps@.push(r.1@),
            final(self).upgrader.asked() == old(self).upgrader.asked() + r.1@.swaps,
            final(self).seams.history() == old(self).seams.history() + r.1@.fence,
            final(self).seams.client().asked() == old(self).seams.client().asked() + r.1@.asks,
            final(self).seams.rests() == old(self).seams.rests() + step_rests(
                r.1@,
                old(self).poll.tick_delay_ms,
            ),
            fence_done(old(self).seams.pauser(), old(self).seams.sleeper(), r.1@.fence),
            match r.0 {
                Ok(_) => went_well(r.1@),
                Err(e) => !went_well(r.1@) && (match r.1@.outcome {
                    Err(why) => e == why,
                    Ok(_) => r.1@.watched == Some(Err::<(), ClusterUpgradeError>(e)),
                }),
            },
    {
        let ghost pre = *self;
        let outcome: Result<(), ClusterUpgradeError> = match step {
            UpgradeStep::UpgradeReplica => self.upgrade_next_replica(),
            UpgradeStep::Promote => self.promote_candidate(),
            UpgradeStep::UpgradeOldPrimary => self.upgrade_old_primary(),
            _ => Ok(()),
        };
        let ghost swaps = self.upgrader.asked().skip(pre.upgrader.asked().len() as int);
        let ghost fence = self.seams.history().skip(pre.seams.history().len() as int);
        let ghost acted = *self;
        let ghost mut taken = StepTaken {
            view: pre.view,
            old_primary: opt_string(pre.old_primary_id),
            step,
            swaps,
            fence,
            outcome,
            watched: None,
            asks: fence_asks(fence),
            after: pre.view,
        };
        proof {
            assert(self.upgrader.asked() =~= pre.upgrader.asked() + swaps);
            assert(self.seams.history() =~= pre.seams.history() + fence);
            if step is Promote && promote_refusal(
                pre.view,
                opt_string(pre.old_primary_id),
                pre.inventory,
            ) is None {
                let (trace, seen, end): (
                    Seq<FenceEvent>,
                    Seq<NodeObservation>,
                    FenceOutcome,
                ) = choose|trace: Seq<FenceEvent>, seen: Seq<NodeObservation>, end: FenceOutcome|
                    #[trigger] pre.fence_run(*self, trace, seen, end);
                assert(fence =~= trace);
                assert(fenced(
                    pre.view,
                    opt_string(pre.old_primary_id),
                    pre.inventory,
                    pre.freeze,
                    fence,
                    seen,
                    end,
                ));
                assert(some_fence(
                    pre.view,
                    opt_string(pre.old_primary_id),
                    pre.inventory,
                    pre.freeze,
                    fence,
                ));
            } else {
                assert(fence =~= Seq::<FenceEvent>::empty());
                assert(pre.seams.client().asked() + fence_asks(fence) =~= pre.seams.client().asked());
            }
            assert(acted.seams.client().asked() == pre.seams.client().asked() + fence_asks(fence));
        }
        if let Err(e) = outcome {
            self.steps = Ghost(self.steps@.push(taken));
            return (Err(e), Ghost(taken));
        }
        let watched = self.wait_for_progress();
        proof {
            let (round, seen): (Round, Result<ClusterView, ClusterUpgradeError>) = choose|
                round: Round,
                seen: Result<ClusterView, ClusterUpgradeError>,
            | #[trigger] acted.refreshed_to(*self, round, seen) && watched == told(seen);
            let asks = fence_asks(fence) + round.sightings(pre.inventory.nodes@);
            taken = StepTaken { watched: Some(watched), asks, after: self.view, ..taken };
            assert(self.seams.client().asked() =~= pre.seams.client().asked() + asks);
            assert(step_obeyed(pre.inventory, pre.freeze, taken));
            assert(acted.refreshed_to(*self, round, seen));
            assert(pre.step_watched(taken));
        }
        self.steps = Ghost(self.steps@.push(taken));
        (watched, Ghost(taken))
    }
}

/// How a step is watched depends on the setup alone.
proof fn lemma_watched<C: ClusterClient, U: NodeUpgrader, P: Pauser, S: Sleeper>(
    a: LiveCluster<C, U, P, S>,
    b: LiveCluster<C, U, P, S>,
    s: StepTaken,
)
    requires
        a.step_watched(s),
        a.same_setup(b),
    ensures
        b.step_watched(s),
{
    if let Some(w) = s.watched {
        let (mid, post, round, seen): (
            LiveCluster<C, U, P, S>,
            LiveCluster<C, U, P, S>,
            Round,
            Result<ClusterView, ClusterUpgradeError>,
        ) = choose|
            mid: LiveCluster<C, U, P, S>,
            post: LiveCluster<C, U, P, S>,
            round: Round,
            seen: Result<ClusterView, ClusterUpgradeError>,
        |
            {
                &&& #[trigger] mid.refreshed_to(post, round, seen)
                &&& mid.same_setup(a)
                &&& mid.view == s.view
                &&& opt_string(mid.old_primary_id) == s.old_primary
                &&& w == told(seen)
                &&& s.asks == fence_asks(s.fence) + round.sightings(a.inventory.nodes@)
                &&& post.view == s.after
            };
        assert(mid.refreshed_to(post, round, seen) && mid.same_setup(b));
    }
}

/// A roll that goes on by one step.
proof fn lemma_rolled<C: ClusterClient, U: NodeUpgrader, P: Pauser, S: Sleeper>(
    pre: LiveCluster<C, U, P, S>,
    mid: LiveCluster<C, U, P, S>,
    post: LiveCluster<C, U, P, S>,
    prior: Seq<StepTaken>,
    entry: StepTaken,
)
    requires
        pre.rolled_to(mid, prior),
        mid.same_setup(pre),
        forall|i: int| 0 <= i < prior.len() ==> went_well(#[trigger] prior[i]),
        step_obeyed(mid.inventory, mid.freeze, entry),
        mid.step_watched(entry),
        entry.view == mid.view,
        entry.after == post.view,
        post.steps@ == mid.steps@.push(entry),
        post.upgrader.asked() == mid.upgrader.asked() + entry.swaps,
        post.seams.history() == mid.seams.history() + entry.fence,
        post.seams.client().asked() == mid.seams.client().asked() + entry.asks,
        post.seams.rests() == mid.seams.rests() + step_rests(entry, mid.poll.tick_delay_ms),
        fence_done(mid.seams.pauser(), mid.seams.sleeper(), entry.fence),
    ensures
        pre.rolled_to(post, prior.push(entry)),
{
    let steps = prior.push(entry);
    lemma_watched(mid, pre, entry);
    assert(steps.drop_last() =~= prior);
    assert(post.steps@ =~= pre.steps@ + steps);
    assert(post.upgrader.asked() =~= pre.upgrader.asked() + all_swaps(steps));
    assert(post.seams.history() =~= pre.seams.history() + all_fences(steps));
    assert(post.seams.client().asked() =~= pre.seams.client().asked() + all_asks(steps));
    assert(post.seams.rests() =~= pre.seams.rests() + all_rests(steps, pre.poll.tick_delay_ms));
    let fences = all_fences(steps);
    let n = all_fences(prior).len();
    assert forall|k: int| 0 <= k < fences.len() implies event_done(
        pre.seams.pauser(),
        pre.seams.sleeper(),
        #[trigger] fences[k],
    ) by {
        if k < n {
            assert(fences[k] == all_fences(prior)[k]);
        } else {
            assert(fences[k] == entry.fence[k - n]);
        }
    }
    assert forall|i: int| 0 <= i < steps.len() implies pre.step_watched(#[trigger] steps[i]) by {
        if i < prior.len() {
            assert(steps[i] == prior[i]);
        }
    }
    assert forall|i: int| 0 <= i < steps.len() implies step_obeyed(
        pre.inventory,
        pre.freeze,
        #[trigger] steps[i],
    ) by {
        if i < prior.len() {
            assert(steps[i] == prior[i]);
        }
    }
    assert forall|i: int| 0 <= i < steps.len() - 1 implies went_well(#[trigger] steps[i]) by {
        assert(steps[i] == prior[i]);
    }
    assert forall|i: int, j: int|
        0 <= i < j < steps.len() && j == i + 1 implies (#[trigger] steps[j]).view == (
    #[trigger] steps[i]).after by {
        assert(steps[i] == prior[i]);
        if j < prior.len() {
            assert(steps[j] == prior[j]);
        }
    }
}

/// Rolls an observed shard to completion, at most `max_ticks` steps. A shard that is
/// fully upgraded is left alone.
pub fn roll_observed<C: ClusterClient, U: NodeUpgrader, P: Pauser, S: Sleeper>(
    live: &mut LiveCluster<C, U, P, S>,
    max_ticks: usize,
) -> (r: Result<UpgradeReport, ClusterUpgradeError>)
    ensures
        final(live).same_setup(*old(live)),
        old(live).old_primary_id is Some ==> final(live).old_primary_id == old(live).old_primary_id,
        if old(live).view.all_on_target() {
            r == Ok::<UpgradeReport, ClusterUpgradeError>(UpgradeReport::Completed)
                && *final(live) == *old(live)
        } else {
            exists|steps: Seq<StepTaken>|
                {
                    &&& #[trigger] old(live).rolled_to(*final(live), steps)
                    &&& roll_outcome(steps, final(live).view, max_ticks as nat, r)
                }
        },
{
    if live.view.shard_fully_upgraded() {
        return Ok(UpgradeReport::Completed);
    }
    let ghost mut steps: Seq<StepTaken> = Seq::empty();
    assert(live.upgrader.asked() + all_swaps(steps) =~= live.upgrader.asked());
    assert(live.seams.client().asked() + all_asks(steps) =~= live.seams.client().asked());
    assert(live.seams.history() + all_fences(steps) =~= live.seams.history());
    assert(live.seams.rests() + all_rests(steps, live.poll.tick_delay_ms) =~= live.seams.rests());
    assert(live.steps@ + steps =~= live.steps@);
    let mut tick: usize = 0;
    while tick < max_ticks
        invariant
            tick <= max_ticks,
            live.same_setup(*old(live)),
            old(live).old_primary_id is Some ==> live.old_primary_id == old(live).old_primary_id,
            !old(live).view.all_on_target(),
            steps.len() == tick,
            forall|i: int| 0 <= i < steps.len() ==> went_well(#[trigger] steps[i]),
            old(live).rolled_to(*live, steps),
        decreases max_ticks - tick,
    {
        let step = upgrade_step(live.progress());
        if let UpgradeStep::Done = step {
            return Ok(UpgradeReport::Completed);
        }
        let ghost prior = steps;
        let ghost before = *live;
        let (taken, Ghost(entry)) = live.take_step(step);
        proof {
            lemma_rolled(*old(live), before, *live, prior, entry);
            steps = steps.push(entry);
        }
        if let Err(e) = taken {
            return Err(e);
        }
        tick = tick + 1;
    }
    match upgrade_step(live.progress()) {
        UpgradeStep::Done => Ok(UpgradeReport::Completed),
        step => Ok(UpgradeReport::StalledAfterBudget(step)),
    }
}

/// Rolls the shard: observes it first, which remembers the primary and checks the
/// members, and then takes one step after the other.
pub fn run_cluster_upgrade<C: ClusterClient, U: NodeUpgrader, P: Pauser, S: Sleeper>(
    live: &mut LiveCluster<C, U, P, S>,
    max_ticks: usize,
) -> (r: Result<UpgradeReport, ClusterUpgradeError>)
    ensures
        final(live).same_setup(*old(live)),
        old(live).old_primary_id is Some ==> final(live).old_primary_id == old(live).old_primary_id,
        upgraded_to(*old(live), *final(live), max_ticks as nat, r),
{
    let ghost pre = *live;
    let seen = live.refresh();
    let ghost mid = *live;
    assert(exists|round: Round| #[trigger] pre.refreshed_to(mid, round, seen));
    if let Err(e) = seen {
        return Err(e);
    }
    roll_observed(live, max_ticks)
}

/// Whether an observation and a roll lead from one state of a driver to another one
/// and to a result: a failed observation ends it, a shard that is fully upgraded is
/// left alone, and otherwise the steps are taken.
pub open spec fn upgraded_to<C: ClusterClient, U: NodeUpgrader, P: Pauser, S: Sleeper>(
    pre: LiveCluster<C, U, P, S>,
    post: LiveCluster<C, U, P, S>,
    max_ticks: nat,
    r: Result<UpgradeReport, ClusterUpgradeError>,
) -> bool {
    exists|
        mid: LiveCluster<C, U, P, S>,
        round: Round,
        seen: Result<ClusterView, ClusterUpgradeError>,
    |
        {
            &&& #[trigger] pre.refreshed_to(mid, round, seen)
            &&& mid.same_setup(pre)
            &&& mid.same_actions(pre)
            &&& match seen {
                Err(e) => post == mid && r == Err::<UpgradeReport, ClusterUpgradeError>(e),
                Ok(_) => if mid.view.all_on_target() {
                    post == mid && r == Ok::<UpgradeReport, ClusterUpgradeError>(
                        UpgradeReport::Completed,
                    )
                } else {
                    exists|steps: Seq<StepTaken>|
                        {
                            &&& #[trigger] mid.rolled_to(post, steps)
                            &&& roll_outcome(steps, post.view, max_ticks, r)
                        }
                },
            }
        }
}

/// How the command of an actuator ended.
#[derive(Debug)]
pub enum SwapOutcome {
    /// It could not be started.
    SpawnFailed(String),
    /// It ran.
    Exited {
        /// It reported success.
        success: bool,
        /// Its exit code, where it has one.
        code: Option<i32>,
        /// What it wrote to its error stream.
        stderr: Vec<u8>,
    },
}

/// An optional exit code as it is shown.
pub open spec fn code_text(code: Option<i32>) -> Seq<char> {
    match code {
        Some(n) => "Some("@ + signed_decimal(n as int) + ")"@,
        None => "None"@,
    }
}

fn append_code(out: &mut String, code: Option<i32>)
    ensures
        final(out)@ == old(out)@ + code_text(code),
{
    let ghost start = out@;
    match code {
        Some(n) => {
            out.append("Some(");
            append_signed(out, n as i64);
            out.append(")");
            assert(out@ =~= start + code_text(code));
        },
        None => {
            out.append("None");
        },
    }
}

/// What went wrong with the command of an actuator, if anything. `started` comes
/// before the reason that it could not be started, `exited` before its exit code.
pub open spec fn swap_failure(o: SwapOutcome, started: Seq<char>, exited: Seq<char>) -> Option<
    Seq<char>,
> {
    match o {
        SwapOutcome::SpawnFailed(e) => Some(started + e@),
        SwapOutcome::Exited { success, code, stderr } => if success {
            None
        } else {
            Some(
                exited + code_text(code) + ": "@ + trimmed(crate::bytes::bytes_text(stderr@)),
            )
        },
    }
}

fn swap_result(target: &ActuationTarget, o: &SwapOutcome, started: String, exited: String) -> (r:
    Result<(), ClusterUpgradeError>)
    ensures
        match swap_failure(*o, started@, exited@) {
            None => r is Ok,
            Some(d) => r matches Err(e) && (e matches ClusterUpgradeError::Upgrade { node, detail }
                && node@ == target.id@ && detail@ == d),
        },
{
    match o {
        SwapOutcome::SpawnFailed(e) => {
            let mut detail = started;
            detail.append(e.as_str());
            Err(ClusterUpgradeError::Upgrade { node: target.id.clone(), detail })
        },
        SwapOutcome::Exited { success, code, stderr } => {
            if *success {
                return Ok(());
            }
            let mut detail = exited;
            append_code(&mut detail, *code);
            detail.append(": ");
            let text = crate::bytes::text_of(stderr.as_slice());
            let chars = chars_of(text.as_str());
            let line = string_of(trim(chars.as_slice()));
            detail.append(line.as_str());
            Err(ClusterUpgradeError::Upgrade { node: target.id.clone(), detail })
        },
    }
}

/// Swaps a binary by running the single-node upgrade on the node's host over SSH.
#[derive(Debug, Clone)]
pub struct SshUpgrader {
    /// The remote binary.
    pub remote_binary: String,
    /// The arguments behind the upgrade source.
    pub extra_args: Vec<String>,
}

impl Default for SshUpgrader {
    fn default() -> (r: Self)
        ensures
            r.remote_binary@ == "ironcache"@,
            string_views(r.extra_args@) == seq!["--yes"@],
    {
        let mut extra_args: Vec<String> = Vec::new();
        extra_args.push("--yes".to_owned());
        assert(string_views(extra_args@) =~= seq!["--yes"@]);
        SshUpgrader { remote_binary: "ironcache".to_owned(), extra_args }
    }
}

/// Appends copies of slices as strings.
fn push_words(out: &mut Vec<String>, ws: &Vec<&[char]>)
    ensures
        string_views(final(out)@) == string_views(old(out)@) + pieces(ws@),
{
    let ghost start = string_views(out@);
    for i in 0..ws.len()
        invariant
            string_views(out@) == start + pieces(ws@).take(i as int),
    {
        let ghost before = string_views(out@);
        let w = string_of(ws[i]);
        out.push(w);
        assert(string_views(out@) =~= before.push(w@));
        assert(pieces(ws@).take(i as int + 1) =~= pieces(ws@).take(i as int).push(
            pieces(ws@)[i as int],
        ));
    }
    assert(pieces(ws@).take(ws@.len() as int) =~= pieces(ws@));
}

impl SshUpgrader {
    /// An actuator with the default binary and arguments.
    pub fn new() -> (r: Self)
        ensures
            r.remote_binary@ == "ironcache"@,
            string_views(r.extra_args@) == seq!["--yes"@],
    {
        SshUpgrader::default()
    }

    /// The words of the command for a target, the program first.
    pub open spec fn command_words(self, t: ActuationTarget) -> Seq<Seq<char>> {
        seq!["ssh"@, t.ssh@, self.remote_binary@, "upgrade"@] + words_of(t.upgrade_source@)
            + string_views(self.extra_args@)
    }

    /// The command that upgrades a target: `ssh <target> <binary> upgrade <source>
    /// <arguments>`.
    pub fn command(&self, target: &ActuationTarget) -> (r: Vec<String>)
        ensures
            string_views(r@) == self.command_words(*target),
    {
        let mut out: Vec<String> = Vec::new();
        out.push("ssh".to_owned());
        out.push(target.ssh.clone());
        out.push(self.remote_binary.clone());
        out.push("upgrade".to_owned());
        assert(string_views(out@) =~= seq!["ssh"@, target.ssh@, self.remote_binary@, "upgrade"@]);
        let chars = chars_of(target.upgrade_source.as_str());
        let ws = words(chars.as_slice());
        push_words(&mut out, &ws);
        let ghost start = string_views(out@);
        for i in 0..self.extra_args.len()
            invariant
                string_views(out@) == start + string_views(self.extra_args@.take(i as int)),
        {
            let ghost before = string_views(out@);
            out.push(self.extra_args[i].clone());
            assert(string_views(out@) =~= before.push(self.extra_args@[i as int]@));
            assert(string_views(self.extra_args@.take(i as int + 1)) =~= string_views(
                self.extra_args@.take(i as int),
            ).push(self.extra_args@[i as int]@));
        }
        assert(self.extra_args@.take(self.extra_args@.len() as int) =~= self.extra_args@);
        out
    }

    /// Reads how the command for a target ended.
    pub fn outcome(&self, target: &ActuationTarget, o: &SwapOutcome) -> (r: Result<
        (),
        ClusterUpgradeError,
    >)
        ensures
            match swap_failure(
                *o,
                "spawning the remote upgrade: "@,
                "the remote `"@ + self.remote_binary@ + " upgrade` exited "@,
            ) {
                None => r is Ok,
                Some(d) => r matches Err(e) && (e matches ClusterUpgradeError::Upgrade {
                    node,
                    detail,
                } && node@ == target.id@ && detail@ == d),
            },
    {
        let mut exited: String = "the remote `".to_owned();
        exited.append(self.remote_binary.as_str());
        exited.append(" upgrade` exited ");
        swap_result(target, o, "spawning the remote upgrade: ".to_owned(), exited)
    }
}

/// Swaps a binary by running a command of the operator.
#[derive(Debug, Clone)]
pub struct CommandUpgrader {
    /// The program.
    pub program: String,
    /// The arguments, with placeholders.
    pub arg_template: Vec<String>,
}

/// The placeholder at the start of `arg`: what stands in its place, and the text
/// behind it.
pub open spec fn placeholder(arg: Seq<char>, t: ActuationTarget) -> Option<(Seq<char>, Seq<char>)> {
    match after_prefix(arg, "{id}"@) {
        Some(rest) => Some((t.id@, rest)),
        None => match after_prefix(arg, "{source}"@) {
            Some(rest) => Some((t.upgrade_source@, rest)),
            None => match after_prefix(arg, "{target}"@) {
                Some(rest) => Some((t.ssh@, rest)),
                None => None,
            },
        },
    }
}

/// An argument with the placeholders replaced: `{id}` by the id, `{source}` by the
/// upgrade source and `{target}` by the SSH target. What is put in is not searched
/// again.
pub open spec fn expanded(arg: Seq<char>, t: ActuationTarget) -> Seq<char>
    decreases arg.len(),
    via expanded_shrinks
{
    match placeholder(arg, t) {
        Some((value, rest)) => value + expanded(rest, t),
        None => if arg.len() == 0 {
            arg
        } else {
            seq![arg[0]] + expanded(arg.drop_first(), t)
        },
    }
}

#[via_fn]
proof fn expanded_shrinks(arg: Seq<char>, t: ActuationTarget) {
    reveal_strlit("{id}");
    reveal_strlit("{source}");
    reveal_strlit("{target}");
}

impl CommandUpgrader {
    /// An actuator from a template: words, the first of which is the program. A
    /// template without a word gives none.
    pub fn from_template(template: &str) -> (r: Option<Self>)
        ensures
            match r {
                None => words_of(template@).len() == 0,
                Some(u) => words_of(template@).len() > 0 && u.program@ == words_of(template@)[0]
                    && string_views(u.arg_template@) == words_of(template@).drop_first(),
            },
    {
        let chars = chars_of(template);
        let mut ws = words(chars.as_slice());
        let ghost all = pieces(ws@);
        assert(all.len() == ws@.len());
        if ws.len() == 0 {
            return None;
        }
        let first = ws.remove(0);
        assert(first@ == all[0]);
        assert(pieces(ws@) =~= all.drop_first());
        let mut arg_template: Vec<String> = Vec::new();
        push_words(&mut arg_template, &ws);
        assert(string_views(arg_template@) =~= all.drop_first());
        Some(CommandUpgrader { program: string_of(first), arg_template })
    }

    /// One argument of the template for a target.
    pub fn expand(arg: &str, target: &ActuationTarget) -> (r: String)
        ensures
            r@ == expanded(arg@, *target),
    {
        proof {
            reveal_strlit("{id}");
            reveal_strlit("{source}");
            reveal_strlit("{target}");
        }
        let all = chars_of(arg);
        let mut rest: &[char] = all.as_slice();
        let mut out: Vec<char> = Vec::new();
        assert(out@ + expanded(arg@, *target) =~= expanded(arg@, *target));
        while rest.len() > 0
            invariant
                "{id}"@.len() > 0,
                "{source}"@.len() > 0,
                "{target}"@.len() > 0,
                out@ + expanded(rest@, *target) == expanded(arg@, *target),
            decreases rest@.len(),
        {
            let ghost before = out@;
            let ghost tail = rest@;
            if let Some(r) = cut_lit(rest, "{id}") {
                push_all(&mut out, chars_of(target.id.as_str()).as_slice());
                rest = r;
                assert(before + (target.id@ + expanded(r@, *target)) =~= out@ + expanded(
                    r@,
                    *target,
                ));
            } else if let Some(r) = cut_lit(rest, "{source}") {
                push_all(&mut out, chars_of(target.upgrade_source.as_str()).as_slice());
                rest = r;
                assert(before + (target.upgrade_source@ + expanded(r@, *target)) =~= out@
                    + expanded(r@, *target));
            } else if let Some(r) = cut_lit(rest, "{target}") {
                push_all(&mut out, chars_of(target.ssh.as_str()).as_slice());
                rest = r;
                assert(before + (target.ssh@ + expanded(r@, *target)) =~= out@ + expanded(
                    r@,
                    *target,
                ));
            } else {
                out.push(rest[0]);
                rest = slice_subrange(rest, 1, rest.len());
                assert(rest@ =~= tail.drop_first());
                assert(before + (seq![tail[0]] + expanded(rest@, *target)) =~= out@ + expanded(
                    rest@,
                    *target,
                ));
            }
        }
        assert(expanded(rest@, *target) =~= Seq::empty());
        assert(out@ + expanded(rest@, *target) =~= out@);
        string_of(out.as_slice())
    }

    /// The command that upgrades a target, the program first.
    pub fn command(&self, target: &ActuationTarget) -> (r: Vec<String>)
        ensures
            string_views(r@) == seq![self.program@] + string_views(self.arg_template@).map_values(
                |a: Seq<char>| expanded(a, *target),
            ),
    {
        let mut out: Vec<String> = Vec::new();
        out.push(self.program.clone());
        let ghost f = |a: Seq<char>| expanded(a, *target);
        let ghost args = string_views(self.arg_template@);
        assert(string_views(out@) =~= seq![self.program@] + args.take(0).map_values(f));
        for i in 0..self.arg_template.len()
            invariant
                args == string_views(self.arg_template@),
                f == (|a: Seq<char>| expanded(a, *target)),
                string_views(out@) == seq![self.program@] + args.take(i as int).map_values(f),
        {
            let ghost before = string_views(out@);
            let a = CommandUpgrader::expand(self.arg_template[i].as_str(), target);
            out.push(a);
            assert(string_views(out@) =~= before.push(a@));
            assert(args.take(i as int + 1).map_values(f) =~= args.take(i as int).map_values(f).push(
                a@,
            ));
        }
        assert(args.take(self.arg_template@.len() as int) =~= args);
        out
    }

    /// Reads how the command for a target ended.
    pub fn outcome(&self, target: &ActuationTarget, o: &SwapOutcome) -> (r: Result<
        (),
        ClusterUpgradeError,
    >)
        ensures
            match swap_failure(
                *o,
                "spawning the actuation command `"@ + self.program@ + "`: "@,
                "the actuation command `"@ + self.program@ + "` exited "@,
            ) {
                None => r is Ok,
                Some(d) => r matches Err(e) && (e matches ClusterUpgradeError::Upgrade {
                    node,
                    detail,
                } && node@ == target.id@ && detail@ == d),
            },
    {
        let mut started: String = "spawning the actuation command `".to_owned();
        started.append(self.program.as_str());
        started.append("`: ");
        let mut exited: String = "the actuation command `".to_owned();
        exited.append(self.program.as_str());
        exited.append("` exited ");
        swap_result(target, o, started, exited)
    }
}

/// Whether a master lists a replica at an address with a lag.
pub open spec fn lists_lag(obs: NodeObservation, addr: Seq<char>, lag: int) -> bool {
    exists|j: int|
        {
            &&& 0 <= j < obs.slaves@.len()
            &&& host_port(addr) == Some(
                ((#[trigger] obs.slaves@[j]).host@, obs.slaves@[j].port as nat),
            )
            &&& obs.slaves@[j].lag == lag
        }
}

/// A lag that is read of a master is one that it lists for the host and the port of the
/// replica.
pub proof fn law_listed_lag_is_of_the_replica(obs: NodeObservation, candidate: ActuationTarget)
    ensures
        listed_lag(obs, candidate) matches Some(n) ==> lists_lag(obs, candidate.resp_addr@, n),
        listed_lag(obs, candidate) is None ==> forall|j: int|
            0 <= j < obs.slaves@.len() ==> host_port(candidate.resp_addr@) != Some(
                ((#[trigger] obs.slaves@[j]).host@, obs.slaves@[j].port as nat),
            ),
{
    let all = slave_views(obs.slaves@);
    match host_port(candidate.resp_addr@) {
        None => {},
        Some((h, p)) => {
            crate::cluster_observe::law_lag_is_that_of_the_replica(
                all,
                candidate.resp_addr@,
                h,
                p,
            );
            match listed_lag(obs, candidate) {
                Some(n) => {
                    let i = choose|i: int|
                        {
                            &&& 0 <= i < all.len()
                            &&& (#[trigger] all[i]).host == h
                            &&& all[i].port == p
                            &&& all[i].lag == n
                            &&& forall|j: int|
                                0 <= j < i ==> !((#[trigger] all[j]).host == h && all[j].port == p)
                        };
                    assert(all[i] == obs.slaves@[i]@);
                    assert(host_port(candidate.resp_addr@) == Some(
                        (obs.slaves@[i].host@, obs.slaves@[i].port as nat),
                    ));
                },
                None => {
                    assert forall|j: int| 0 <= j < obs.slaves@.len() implies host_port(
                        candidate.resp_addr@,
                    ) != Some(((#[trigger] obs.slaves@[j]).host@, obs.slaves@[j].port as nat)) by {
                        assert(all[j] == obs.slaves@[j]@);
                    }
                },
            }
        },
    }
}

/// The freeze goes to the node itself, with its secret and the window.
pub proof fn law_freeze_goes_to_the_node(t: ActuationTarget, window_ms: u64)
    ensures
        freeze_of(t, window_ms).addr == t.resp_addr@,
        freeze_of(t, window_ms).auth is Some <==> t.auth is Some,
        t.auth matches Some(a) ==> freeze_of(t, window_ms).auth == Some(a@),
        freeze_of(t, window_ms).window_ms == window_ms,
{
}

/// What the fence does, action by action: the freeze of the primary, then one reading of
/// that primary for each of its answers, with a pause behind every reading that is not
/// zero, then, where the last reading was zero, the failover of the candidate, and the
/// release of the primary. A freeze that is refused is all there is.
pub proof fn law_fence_action_by_action(
    primary: ActuationTarget,
    candidate: ActuationTarget,
    freeze: FreezeCfg,
    seen: Seq<NodeObservation>,
    outcome: FenceOutcome,
    i: int,
)
    requires
        fence_readings(listed_lags(seen, candidate), outcome, freeze.max_drain_polls as int),
    ensures
        ({
            let t = fence_trace(primary, candidate, freeze, seen, outcome);
            &&& t[0] matches FenceEvent::Freeze { to, answer } && to.addr == primary.resp_addr@
                && to.window_ms == freeze.pause_window_ms && (answer is Err
                <==> outcome is FreezeRefused)
            &&& outcome is FreezeRefused ==> t.len() == 1
            &&& outcome is TimedOut ==> t.len() == seen.len() + 2 && seen.len()
                == freeze.max_drain_polls
            &&& outcome is PollFailed ==> t.len() == seen.len() + 3 && (t[seen.len() as int + 1]
                matches FenceEvent::PollFailed { of, .. } && of == primary)
            &&& outcome is Drained ==> t.len() == seen.len() + 3 && seen.len() > 0
                && (t[seen.len() as int + 1] matches FenceEvent::Failover {
                candidate: c,
                answer,
            } && c == candidate && outcome == FenceOutcome::Drained(answer))
            &&& !(outcome is FreezeRefused) ==> (t.last() matches FenceEvent::Release { to }
                && to.addr == primary.resp_addr@ && to.window_ms == freeze.pause_window_ms)
            &&& !(outcome is FreezeRefused) && 0 <= i < seen.len() ==> (t[i + 1]
                matches FenceEvent::Poll { of, obs, lag, pause_ms } && of == primary && obs
                == seen[i] && lag == listed_lag(seen[i], candidate) && pause_ms == (if lag == Some(
                0int,
            ) {
                0
            } else {
                freeze.drain_poll_delay_ms
            }) && (lag == Some(0int) ==> outcome is Drained && i == seen.len() - 1))
        }),
{
    let t = fence_trace(primary, candidate, freeze, seen, outcome);
    let polls = poll_events(primary, candidate, seen, freeze.drain_poll_delay_ms);
    if !(outcome is FreezeRefused) && 0 <= i < seen.len() {
        assert(t[i + 1] == polls[i]);
        assert(listed_lags(seen, candidate)[i] == listed_lag(seen[i], candidate));
    }
}

/// No failover is commanded unless the old primary lists the candidate, by its host and
/// its port, with no write left to apply.
pub proof fn law_failover_loses_no_write(
    primary: ActuationTarget,
    candidate: ActuationTarget,
    freeze: FreezeCfg,
    seen: Seq<NodeObservation>,
    outcome: FenceOutcome,
    i: int,
)
    requires
        fence_readings(listed_lags(seen, candidate), outcome, freeze.max_drain_polls as int),
        0 <= i < fence_trace(primary, candidate, freeze, seen, outcome).len(),
        fence_trace(primary, candidate, freeze, seen, outcome)[i] is Failover,
    ensures
        i >= 2,
        fence_trace(primary, candidate, freeze, seen, outcome)[i - 1] matches FenceEvent::Poll {
            of,
            obs,
            ..
        } && of == primary && lists_lag(obs, candidate.resp_addr@, 0),
{
    law_failover_only_when_drained(primary, candidate, freeze, seen, outcome, i);
    law_listed_lag_is_of_the_replica(seen.last(), candidate);
}

proof fn lemma_master_at(obs: Seq<NodeObservation>)
    ensures
        0 <= master_at(obs) <= obs.len(),
        forall|j: int| 0 <= j < master_at(obs) ==> (#[trigger] obs[j]).role is Replica,
        master_at(obs) < obs.len() ==> obs[master_at(obs)].role is Master,
    decreases obs.len(),
{
    if obs.len() > 0 && obs[0].role is Replica {
        let rest = obs.drop_first();
        lemma_master_at(rest);
        assert forall|j: int| 0 <= j < master_at(obs) implies (#[trigger] obs[j]).role is Replica by {
            if j > 0 {
                assert(obs[j] == rest[j - 1]);
            }
        }
    }
}

/// A view says of each node what the node and the first master said: its id, its role and
/// its version in comparable form; and a replica is attached where it says so, with the
/// lag that the master lists for its host and port, or an unknown one.
pub proof fn law_views_say_what_was_observed(
    views: Seq<NodeView>,
    nodes: Seq<ActuationTarget>,
    obs: Seq<NodeObservation>,
    i: int,
    m: int,
)
    requires
        are_views_of(views, nodes, obs),
        0 <= i < nodes.len(),
        0 <= m < nodes.len(),
        obs[m].role is Master,
        forall|j: int| 0 <= j < m ==> (#[trigger] obs[j]).role is Replica,
    ensures
        views.len() == nodes.len(),
        views[i].id@ == nodes[i].id@,
        views[i].role == obs[i].role,
        views[i].version@ == normalized(obs[i].version@),
        obs[i].role is Master ==> views[i].lag is None && views[i].link is Down,
        obs[i].role is Replica ==> views[i].link == obs[i].link && views[i].lag is Some,
        obs[i].role is Replica && obs[i].link is Down ==> views[i].lag->0.writes is None,
        obs[i].role is Replica && obs[i].link is Up ==> match views[i].lag->0.writes {
            Some(n) => lists_lag(obs[m], nodes[i].resp_addr@, n as int),
            None => forall|j: int|
                0 <= j < obs[m].slaves@.len() ==> host_port(nodes[i].resp_addr@) != Some(
                    ((#[trigger] obs[m].slaves@[j]).host@, obs[m].slaves@[j].port as nat),
                ),
        },
{
    lemma_master_at(obs);
    assert(master_at(obs) == m) by {
        if master_at(obs) < m {
            assert(obs[master_at(obs)].role is Replica);
        }
    }
    assert(is_view_of(views[i], nodes[i], obs[i], master_list(obs)));
    law_listed_lag_is_of_the_replica(obs[m], nodes[i]);
    if listed_lag(obs[m], nodes[i]) is Some {
        let n = listed_lag(obs[m], nodes[i])->0;
        let j = choose|j: int|
            {
                &&& 0 <= j < obs[m].slaves@.len()
                &&& host_port(nodes[i].resp_addr@) == Some(
                    ((#[trigger] obs[m].slaves@[j]).host@, obs[m].slaves@[j].port as nat),
                )
                &&& obs[m].slaves@[j].lag == n
            };
        assert(0 <= n <= u64::MAX);
    }
}

/// A replica that counts as in sync says itself that it is attached, and the master lists
/// it with a lag within the bound.
pub proof fn law_in_sync_means_listed_so(
    views: Seq<NodeView>,
    nodes: Seq<ActuationTarget>,
    obs: Seq<NodeObservation>,
    i: int,
    max_lag: u64,
)
    requires
        are_views_of(views, nodes, obs),
        0 <= i < nodes.len(),
        views[i].caught_up(max_lag),
    ensures
        obs[i].role is Replica,
        obs[i].link is Up,
        exists|m: int, lag: int|
            {
                &&& 0 <= m < obs.len()
                &&& (#[trigger] obs[m]).role is Master
                &&& 0 <= lag <= max_lag
                &&& #[trigger] lists_lag(obs[m], nodes[i].resp_addr@, lag)
            },
{
    lemma_master_at(obs);
    assert(is_view_of(views[i], nodes[i], obs[i], master_list(obs)));
    let m = master_at(obs);
    if m < obs.len() {
        law_views_say_what_was_observed(views, nodes, obs, i, m);
        let n = views[i].lag->0.writes->0;
        assert(lists_lag(obs[m], nodes[i].resp_addr@, n as int));
    } else {
        let none = Seq::<SlaveModel>::empty();
        assert(master_list(obs) =~= none);
        match host_port(nodes[i].resp_addr@) {
            Some((h, p)) => {
                crate::cluster_observe::law_lag_is_that_of_the_replica(
                    none,
                    nodes[i].resp_addr@,
                    h,
                    p,
                );
                assert(lag_of(none, nodes[i].resp_addr@) is None);
            },
            None => {},
        }
        assert(false);
    }
}

/// The primary of before the roll is the first node that said it is one, and once
/// remembered it stays.
pub proof fn law_the_first_primary_is_remembered(
    old: Option<Seq<char>>,
    nodes: Seq<ActuationTarget>,
    obs: Seq<NodeObservation>,
    m: int,
)
    requires
        obs.len() == nodes.len(),
    ensures
        old is Some ==> remembered(old, nodes, obs) == old,
        old is None && 0 <= m < obs.len() && obs[m].role is Master && (forall|j: int|
            0 <= j < m ==> (#[trigger] obs[j]).role is Replica) ==> remembered(old, nodes, obs)
            == Some(nodes[m].id@),
        old is None && (forall|j: int| 0 <= j < obs.len() ==> (#[trigger] obs[j]).role is Replica)
            ==> remembered(old, nodes, obs) is None,
{
    lemma_master_at(obs);
}

/// An observation stands only where the members are those of the inventory, every node
/// told its state, none of them has more than one shard, and a node told the quorum
/// signal; it says of each node what that node said.
pub proof fn law_an_observation_is_whole<C: ClusterClient, U: NodeUpgrader, P: Pauser, S: Sleeper>(
    pre: LiveCluster<C, U, P, S>,
    post: LiveCluster<C, U, P, S>,
    round: Round,
    v: ClusterView,
)
    requires
        pre.refreshed_to(post, round, Ok(v)),
    ensures
        round.members.len() > 0,
        round.members.last() matches Ok(ids) && forall|id: Seq<char>| #[trigger]
            target_ids(pre.inventory.nodes@).contains(id) <==> ids.contains(id),
        round.nodes.len() == pre.inventory.nodes@.len(),
        forall|i: int|
            0 <= i < round.nodes.len() ==> ((#[trigger] round.nodes[i]) matches Ok(o) && o.shards
                <= 1),
        are_views_of(v.nodes@, pre.inventory.nodes@, round.states()),
        v.max_lag == pre.max_lag,
        v.target_version@ == normalized(pre.target_version@),
        round.quorum.last() matches Ok(q) && v.raft_quorum == (q.state_ok
            && q.raft_leader_present),
        same_view(post.view, v),
        opt_string(v.old_primary_id) == remembered(
            opt_string(pre.old_primary_id),
            pre.inventory.nodes@,
            round.states(),
        ),
{
    let nodes = pre.inventory.nodes@;
    let ids = round.members.last()->Ok_0;
    law_same_members(target_ids(nodes), ids);
    assert forall|i: int| 0 <= i < round.nodes.len() implies ((#[trigger] round.nodes[i]) matches Ok(
        o,
    ) && o.shards <= 1) by {
        assert(round.nodes[i] is Ok);
        assert(round.states()[i] == round.nodes[i]->Ok_0);
        assert(round.states()[i].shards <= 1);
    }
}

/// A promotion is refused, before anything is done, where there is no candidate, where no
/// primary is known, or where the inventory lacks one of the two nodes; and nowhere else.
pub proof fn law_when_a_promotion_is_refused(
    view: ClusterView,
    old_primary: Option<Seq<char>>,
    inventory: Inventory,
)
    ensures
        promote_refusal(view, old_primary, inventory) is None <==> {
            &&& view.candidate() is Some
            &&& old_primary is Some
            &&& target_ids(inventory.nodes@).contains(old_primary->0)
            &&& target_ids(inventory.nodes@).contains(view.nodes@[view.candidate()->0].id@)
        },
        view.candidate() is None ==> promote_refusal(view, old_primary, inventory) == Some(
            PromoteRefusal::NoCandidate,
        ),
{
    if old_primary is Some {
        lemma_known(inventory, old_primary->0);
    }
    if view.candidate() is Some {
        lemma_known(inventory, view.nodes@[view.candidate()->0].id@);
    }
}

proof fn lemma_known(inventory: Inventory, id: Seq<char>)
    ensures
        inventory.target(id) is Some <==> target_ids(inventory.nodes@).contains(id),
        inventory.target(id) matches Some(t) ==> t.id@ == id && inventory.nodes@.contains(t),
{
    let nodes = inventory.nodes@;
    lemma_target_at(nodes, id);
    let k = target_at(nodes, id);
    if k < nodes.len() {
        assert(target_ids(nodes)[k] == id);
    }
    if target_ids(nodes).contains(id) {
        let j = choose|j: int| 0 <= j < target_ids(nodes).len() && target_ids(nodes)[j] == id;
        assert(nodes[j].id@ == id);
    }
}

/// A node of the inventory is found by its id.
pub proof fn law_nodes_are_found_by_id(inventory: Inventory, id: Seq<char>)
    ensures
        inventory.target(id) is Some <==> exists|j: int|
            0 <= j < inventory.nodes@.len() && (#[trigger] inventory.nodes@[j]).id@ == id,
        inventory.target(id) matches Some(t) ==> t.id@ == id && inventory.nodes@.contains(t),
{
    lemma_known(inventory, id);
    let nodes = inventory.nodes@;
    lemma_target_at(nodes, id);
}

/// What a step does to the cluster: a replica step swaps the replica with the least id
/// among those not on the target, the last step swaps the old primary, and no other step
/// swaps anything.
pub proof fn law_a_step_swaps_the_right_node(inventory: Inventory, freeze: FreezeCfg, s: StepTaken)
    requires
        step_obeyed(inventory, freeze, s),
    ensures
        s.swaps.len() <= 1,
        s.swaps.len() == 1 ==> s.fence.len() == 0,
        s.swaps.len() == 1 && s.step is UpgradeOldPrimary ==> s.old_primary
            == Some(s.swaps[0].target.id@),
        s.swaps.len() == 1 && s.step is UpgradeReplica ==> exists|i: int|
            {
                &&& 0 <= i < s.view.nodes@.len()
                &&& (#[trigger] s.view.nodes@[i]).id@ == s.swaps[0].target.id@
                &&& s.view.nodes@[i].role is Replica
                &&& s.view.nodes@[i].version@ != s.view.target_version@
                &&& forall|j: int|
                    {
                        &&& 0 <= j < s.view.nodes@.len()
                        &&& (#[trigger] s.view.nodes@[j]).role is Replica
                        &&& s.view.nodes@[j].version@ != s.view.target_version@
                    } ==> !crate::idset::text_lt(s.view.nodes@[j].id@, s.view.nodes@[i].id@)
            },
        s.swaps.len() == 1 ==> s.step is UpgradeReplica || s.step is UpgradeOldPrimary,
        s.step is UpgradeReplica && target_ids(inventory.nodes@).contains(
            next_replica(s.view.nodes@, s.view.target_version@, s.view.nodes@.len())->0,
        ) && next_replica(s.view.nodes@, s.view.target_version@, s.view.nodes@.len()) is Some
            ==> s.swaps.len() == 1,
{
    let nodes = s.view.nodes@;
    let target = s.view.target_version@;
    law_next_replica_is_least(nodes, target, nodes.len());
    if s.step is UpgradeReplica && next_replica(nodes, target, nodes.len()) is Some {
        let x = next_replica(nodes, target, nodes.len())->0;
        lemma_known(inventory, x);
        if s.swaps.len() == 1 {
            let i = choose|i: int|
                0 <= i < nodes.len() && (#[trigger] nodes[i]).to_upgrade(target) && nodes[i].id@
                    == x;
            assert forall|j: int|
                {
                    &&& 0 <= j < nodes.len()
                    &&& (#[trigger] nodes[j]).role is Replica
                    &&& nodes[j].version@ != target
                } implies !crate::idset::text_lt(nodes[j].id@, nodes[i].id@) by {
                assert(nodes[j].to_upgrade(target));
            }
            assert(nodes[i].id@ == s.swaps[0].target.id@);
        }
    }
    if s.step is UpgradeOldPrimary && s.old_primary is Some {
        lemma_known(inventory, s.old_primary->0);
    }
}

/// A roll that reports its completion has either demoted the old primary and brought it
/// to the target, or found every replica and the primary there.
pub proof fn law_completed_means_upgraded(
    steps: Seq<StepTaken>,
    view: ClusterView,
    max_ticks: nat,
    r: Result<UpgradeReport, ClusterUpgradeError>,
)
    requires
        roll_outcome(steps, view, max_ticks, r),
        r == Ok::<UpgradeReport, ClusterUpgradeError>(UpgradeReport::Completed),
        view.nodes@.len() <= usize::MAX,
    ensures
        (view.demoted() && view.old_on_target()) || (!view.catching_up() && view.master_upgraded()
            && forall|j: int|
            0 <= j < view.nodes@.len() && (#[trigger] view.nodes@[j]).role is Replica
                ==> view.nodes@[j].version@ == view.target_version@),
        steps.len() <= max_ticks,
{
    let nodes = view.nodes@;
    let target = view.target_version@;
    crate::cluster_upgrade::lemma_count_bound(nodes, target, nodes.len());
    if !(view.demoted() && view.old_on_target()) {
        assert forall|j: int| 0 <= j < nodes.len() && (#[trigger] nodes[j]).role is Replica implies
            nodes[j].version@ == target by {
            if nodes[j].version@ != target {
                lemma_one_counts(nodes, target, nodes.len(), j);
            }
        }
    }
}

proof fn lemma_one_counts(nodes: Seq<NodeView>, target: Seq<char>, n: nat, j: int)
    requires
        0 <= j < n <= nodes.len(),
        nodes[j].to_upgrade(target),
    ensures
        crate::cluster_upgrade::to_upgrade_count(nodes, target, n) > 0,
    decreases n,
{
    if j < n - 1 {
        lemma_one_counts(nodes, target, (n - 1) as nat, j);
    }
}

/// What a roll did is what its steps did, in order.
pub proof fn law_a_roll_is_its_steps(steps: Seq<StepTaken>, s: StepTaken, tick_ms: u64)
    ensures
        all_swaps(Seq::empty()).len() == 0,
        all_fences(Seq::empty()).len() == 0,
        all_asks(Seq::empty()).len() == 0,
        all_swaps(steps.push(s)) == all_swaps(steps) + s.swaps,
        all_fences(steps.push(s)) == all_fences(steps) + s.fence,
        all_asks(steps.push(s)) == all_asks(steps) + s.asks,
        s.watched is Some ==> all_rests(steps.push(s), tick_ms) == all_rests(
            steps,
            tick_ms,
        ).push(tick_ms),
        s.watched is None ==> all_rests(steps.push(s), tick_ms) == all_rests(steps, tick_ms),
{
    assert(steps.push(s).drop_last() =~= steps);
    let before = all_rests(steps, tick_ms);
    assert(before + seq![tick_ms] =~= before.push(tick_ms));
    assert(before + Seq::<u64>::empty() =~= before);
}

/// A swap went well if and only if its process ran and exited with success.
pub proof fn law_a_swap_goes_by_its_process(o: SwapOutcome, a: Seq<char>, b: Seq<char>)
    ensures
        swap_failure(o, a, b) is None <==> (o matches SwapOutcome::Exited { success, .. }
            && success),
        o matches SwapOutcome::SpawnFailed(e) ==> swap_failure(o, a, b) == Some(a + e@),
{
}

/// The remote command: `ssh`, the target, the binary, `upgrade`, the words of the source
/// and the extra arguments.
pub proof fn law_remote_command(u: SshUpgrader, t: ActuationTarget)
    ensures
        u.command_words(t).len() == 4 + words_of(t.upgrade_source@).len()
            + u.extra_args@.len(),
        u.command_words(t)[0] == seq!['s', 's', 'h'],
        u.command_words(t)[1] == t.ssh@,
        u.command_words(t)[2] == u.remote_binary@,
        u.command_words(t)[3] == seq!['u', 'p', 'g', 'r', 'a', 'd', 'e'],
        u.command_words(t).subrange(4, 4 + words_of(t.upgrade_source@).len() as int) == words_of(
            t.upgrade_source@,
        ),
        u.command_words(t).skip(4 + words_of(t.upgrade_source@).len() as int) == string_views(
            u.extra_args@,
        ),
{
    reveal_strlit("ssh");
    reveal_strlit("upgrade");
    assert("ssh"@ =~= seq!['s', 's', 'h']);
    assert("upgrade"@ =~= seq!['u', 'p', 'g', 'r', 'a', 'd', 'e']);
    let w = words_of(t.upgrade_source@);
    assert(u.command_words(t).subrange(4, 4 + w.len() as int) =~= w);
    assert(u.command_words(t).skip(4 + w.len() as int) =~= string_views(u.extra_args@));
}

/// A placeholder is replaced by what it stands for, wherever it stands; text without a
/// brace is kept; and what was put in is not searched again.
pub proof fn law_placeholders(rest: Seq<char>, t: ActuationTarget, c: char)
    requires
        c != '{',
    ensures
        expanded("{id}"@ + rest, t) == t.id@ + expanded(rest, t),
        expanded("{source}"@ + rest, t) == t.upgrade_source@ + expanded(rest, t),
        expanded("{target}"@ + rest, t) == t.ssh@ + expanded(rest, t),
        expanded(seq![c] + rest, t) == seq![c] + expanded(rest, t),
        expanded(Seq::empty(), t).len() == 0,
{
    reveal_strlit("{id}");
    reveal_strlit("{source}");
    reveal_strlit("{target}");
    let a = "{id}"@ + rest;
    let b = "{source}"@ + rest;
    let d = "{target}"@ + rest;
    let e = seq![c] + rest;
    crate::text::law_prefix_is_cut_off(a, "{id}"@, rest);
    crate::text::law_prefix_is_cut_off(b, "{source}"@, rest);
    crate::text::law_prefix_is_cut_off(d, "{target}"@, rest);
    lemma_not_here(b, "{id}"@, 1);
    lemma_not_here(d, "{id}"@, 1);
    lemma_not_here(d, "{source}"@, 1);
    lemma_not_here(e, "{id}"@, 0);
    lemma_not_here(e, "{source}"@, 0);
    lemma_not_here(e, "{target}"@, 0);
    assert(e.drop_first() =~= rest);
    let none = Seq::<char>::empty();
    assert(placeholder(none, t) is None);
}

proof fn lemma_not_here(s: Seq<char>, p: Seq<char>, i: int)
    requires
        0 <= i < p.len(),
        i < s.len(),
        s[i] != p[i],
    ensures
        after_prefix(s, p) is None,
{
    if p.len() <= s.len() {
        assert(s.take(p.len() as int)[i] == s[i]);
    }
}

/// The freezes, the releases and the pauses of the fence are calls of the pauser and of
/// the sleeper, for that node and with that answer.
pub proof fn law_fence_actions_are_calls<P: Pauser, S: Sleeper>(
    pauser: P,
    sleeper: S,
    fence: Seq<FenceEvent>,
    k: int,
)
    requires
        fence_done(pauser, sleeper, fence),
        0 <= k < fence.len(),
    ensures
        fence[k] matches FenceEvent::Freeze { to, answer } ==> exists|t: PauseTarget|
            {
                &&& t.resp_addr@ == to.addr
                &&& t.window_ms == to.window_ms
                &&& opt_string(t.auth) == to.auth
                &&& #[trigger] call_ensures(P::freeze, (&pauser, &t), answer)
            },
        fence[k] matches FenceEvent::Release { to } ==> exists|
            t: PauseTarget,
            answer: Result<(), PauseError>,
        |
            {
                &&& t.resp_addr@ == to.addr
                &&& t.window_ms == to.window_ms
                &&& #[trigger] call_ensures(P::unfreeze, (&pauser, &t), answer)
            },
        fence[k] matches FenceEvent::Poll { lag, pause_ms, .. } ==> (lag != Some(0int)
            ==> call_ensures(S::sleep, (&sleeper, pause_ms), ())),
{
    let e = fence[k];
    assert(event_done(pauser, sleeper, e));
    match e {
        FenceEvent::Freeze { to, answer } => {
            let t = choose|t: PauseTarget|
                t@ == to && #[trigger] call_ensures(P::freeze, (&pauser, &t), answer);
            assert(t.resp_addr@ == to.addr && t.window_ms == to.window_ms);
        },
        FenceEvent::Release { to } => {
            let (t, answer) = choose|t: PauseTarget, answer: Result<(), PauseError>|
                t@ == to && #[trigger] call_ensures(P::unfreeze, (&pauser, &t), answer);
            assert(t.resp_addr@ == to.addr && t.window_ms == to.window_ms);
        },
        _ => {},
    }
}

/// The readings and the failover of the fence are questions and commands to the nodes,
/// one for each, in order; the rest of the fence asks the nodes nothing.
pub proof fn law_fence_asks_of_the_nodes(fence: Seq<FenceEvent>, e: FenceEvent)
    ensures
        fence_asks(Seq::empty()).len() == 0,
        fence_asks(fence.push(e)) == (match e {
            FenceEvent::Poll { of, obs, .. } => fence_asks(fence).push(
                Sighting::Node { of, answer: Ok(obs) },
            ),
            FenceEvent::PollFailed { of, error } => fence_asks(fence).push(
                Sighting::Node { of, answer: Err(error) },
            ),
            FenceEvent::Failover { candidate, answer } => fence_asks(fence).push(
                Sighting::Failover { of: candidate, answer },
            ),
            _ => fence_asks(fence),
        }),
{
    assert(fence.push(e).drop_last() =~= fence);
    let before = fence_asks(fence);
    match e {
        FenceEvent::Poll { of, obs, .. } => {
            assert(before + event_asks(e) =~= before.push(Sighting::Node { of, answer: Ok(obs) }));
        },
        FenceEvent::PollFailed { of, error } => {
            assert(before + event_asks(e) =~= before.push(
                Sighting::Node { of, answer: Err(error) },
            ));
        },
        FenceEvent::Failover { candidate, answer } => {
            assert(before + event_asks(e) =~= before.push(
                Sighting::Failover { of: candidate, answer },
            ));
        },
        _ => {
            assert(before + event_asks(e) =~= before);
        },
    }
}

/// What a promotion comes to. It went well if and only if a failover was commanded and
/// was answered so, and then the primary had listed the candidate as drained directly
/// before; nothing was swapped, and what is known did not change. A promotion that is
/// refused does nothing at all.
pub proof fn law_what_a_promotion_comes_to<
    C: ClusterClient,
    U: NodeUpgrader,
    P: Pauser,
    S: Sleeper,
>(pre: LiveCluster<C, U, P, S>, post: LiveCluster<C, U, P, S>, r: Result<(), ClusterUpgradeError>)
    requires
        pre.promoted_to(post, r),
    ensures
        promote_refusal(pre.view, opt_string(pre.old_primary_id), pre.inventory) is Some ==> post
            == pre && r is Err,
        post.upgrader == pre.upgrader,
        post.view == pre.view,
        post.old_primary_id == pre.old_primary_id,
        r is Ok ==> {
            let done = post.seams.history().skip(pre.seams.history().len() as int);
            &&& done.len() >= 4
            &&& done[0] matches FenceEvent::Freeze { answer, .. } && answer is Ok
            &&& done[done.len() - 3] matches FenceEvent::Poll { obs, .. } && lists_lag(
                obs,
                pre.inventory.target(
                    pre.view.nodes@[pre.view.candidate()->0].id@,
                )->0.resp_addr@,
                0,
            )
            &&& done[done.len() - 2] matches FenceEvent::Failover { candidate, answer }
                && candidate.id@ == pre.view.nodes@[pre.view.candidate()->0].id@ && answer is Ok
            &&& done.last() is Release
        },
        forall|k: int|
            pre.seams.history().len() <= k < post.seams.history().len()
                && #[trigger] post.seams.history()[k] is Failover ==> r
                == post.seams.history()[k]->Failover_answer,
{
    if promote_refusal(pre.view, opt_string(pre.old_primary_id), pre.inventory) is None {
        let (fence, seen, outcome) = choose|
            fence: Seq<FenceEvent>,
            seen: Seq<NodeObservation>,
            outcome: FenceOutcome,
        |
            {
                &&& #[trigger] pre.fence_run(post, fence, seen, outcome)
                &&& match outcome {
                    FenceOutcome::FreezeRefused(e) => r == Err::<(), ClusterUpgradeError>(
                        ClusterUpgradeError::Pause(e),
                    ),
                    FenceOutcome::TimedOut => r matches Err(e) && timed_out(
                        e,
                        pre.view.nodes@[pre.view.candidate()->0].id@,
                        pre.freeze.max_drain_polls,
                    ),
                    FenceOutcome::PollFailed(e) => r == Err::<(), ClusterUpgradeError>(e),
                    FenceOutcome::Drained(answer) => r == answer,
                }
            };
        let primary = pre.inventory.target(pre.old_primary_id->0@)->0;
        let id = pre.view.nodes@[pre.view.candidate()->0].id@;
        let candidate = pre.inventory.target(id)->0;
        lemma_known(pre.inventory, id);
        let done = post.seams.history().skip(pre.seams.history().len() as int);
        assert(done =~= fence);
        assert(fence == fence_trace(primary, candidate, pre.freeze, seen, outcome));
        if r is Ok {
            assert(outcome is Drained);
            law_fence_action_by_action(
                primary,
                candidate,
                pre.freeze,
                seen,
                outcome,
                seen.len() - 1,
            );
            law_failover_loses_no_write(
                primary,
                candidate,
                pre.freeze,
                seen,
                outcome,
                seen.len() as int + 1,
            );
        }
        assert forall|k: int|
            pre.seams.history().len() <= k < post.seams.history().len()
                && #[trigger] post.seams.history()[k] is Failover implies r
            == post.seams.history()[k]->Failover_answer by {
            let i = k - pre.seams.history().len();
            assert(fence[i] == post.seams.history()[k]);
            law_failover_only_when_drained(primary, candidate, pre.freeze, seen, outcome, i);
            law_fence_action_by_action(primary, candidate, pre.freeze, seen, outcome, i - 1);
            if i <= seen.len() {
                law_fence_action_by_action(primary, candidate, pre.freeze, seen, outcome, i - 1);
            }
            assert(i == seen.len() + 1);
        }
    }
}

/// A swap of a node asks the actuator for that node once, and its result is the answer; a
/// node that the inventory lacks is refused, and nothing is asked.
pub proof fn law_a_swap_is_one_call<C: ClusterClient, U: NodeUpgrader, P: Pauser, S: Sleeper>(
    pre: LiveCluster<C, U, P, S>,
    post: LiveCluster<C, U, P, S>,
    id: Seq<char>,
    r: Result<(), ClusterUpgradeError>,
)
    requires
        post.swapped_from(pre, id, r),
    ensures
        target_ids(pre.inventory.nodes@).contains(id) ==> {
            &&& post.upgrader.asked().len() == pre.upgrader.asked().len() + 1
            &&& post.upgrader.asked().drop_last() == pre.upgrader.asked()
            &&& post.upgrader.asked().last().target.id@ == id
            &&& pre.inventory.nodes@.contains(post.upgrader.asked().last().target)
            &&& post.upgrader.asked().last().answer == r
        },
        !target_ids(pre.inventory.nodes@).contains(id) ==> post.upgrader == pre.upgrader && r is Err,
        post.seams == pre.seams,
        post.view == pre.view,
{
    lemma_known(pre.inventory, id);
    if pre.inventory.target(id) is Some {
        assert(post.upgrader.asked().drop_last() =~= pre.upgrader.asked());
    }
}

/// The setup of a driver is its inventory, its target, its bounds and its pacing; a roll
/// keeps it.
pub proof fn law_the_setup_is_kept<C: ClusterClient, U: NodeUpgrader, P: Pauser, S: Sleeper>(
    a: LiveCluster<C, U, P, S>,
    b: LiveCluster<C, U, P, S>,
)
    requires
        a.same_setup(b),
    ensures
        a.inventory == b.inventory,
        a.target_version == b.target_version,
        a.max_lag == b.max_lag,
        a.poll == b.poll,
        a.freeze == b.freeze,
{
}

/// Where nothing was done, no node was swapped, frozen, failed over or released.
pub proof fn law_nothing_done<C: ClusterClient, U: NodeUpgrader, P: Pauser, S: Sleeper>(
    a: LiveCluster<C, U, P, S>,
    b: LiveCluster<C, U, P, S>,
)
    requires
        a.same_actions(b),
    ensures
        a.upgrader.asked() == b.upgrader.asked(),
        a.seams.history() == b.seams.history(),
{
}

/// The progress that a view stands for.
pub proof fn law_progress_of_a_view(v: ClusterView)
    requires
        v.nodes@.len() <= usize::MAX,
    ensures
        progress_of(v).replicas_to_upgrade == crate::cluster_upgrade::to_upgrade_count(
            v.nodes@,
            v.target_version@,
            v.nodes@.len(),
        ),
        progress_of(v).replica_catching_up == v.catching_up(),
        progress_of(v).promotion == v.promotion(),
        progress_of(v).primary_demoted == v.demoted(),
        progress_of(v).old_primary_upgraded == v.old_on_target(),
        progress_of(v).master_on_target == v.master_upgraded(),
{
    crate::cluster_upgrade::lemma_count_bound(v.nodes@, v.target_version@, v.nodes@.len());
}

/// Each step of a roll is decided on the observation that stands at that time: the first
/// on that of the start, and every other on the one behind the step before it; and what
/// was done is what the steps did.
pub proof fn law_each_step_is_decided_on_the_latest_view<
    C: ClusterClient,
    U: NodeUpgrader,
    P: Pauser,
    S: Sleeper,
>(
    pre: LiveCluster<C, U, P, S>,
    post: LiveCluster<C, U, P, S>,
    steps: Seq<StepTaken>,
    i: int,
)
    requires
        pre.rolled_to(post, steps),
        0 <= i < steps.len(),
    ensures
        steps[i].step == rolling_step(progress_of(steps[i].view)),
        !(steps[i].step is Done),
        i == 0 ==> steps[i].view == pre.view,
        i > 0 ==> steps[i].view == steps[i - 1].after,
        i < steps.len() - 1 ==> steps[i].outcome is Ok && steps[i].watched
            == Some(Ok::<(), ClusterUpgradeError>(())),
        steps.last().after == post.view,
        post.upgrader.asked() == pre.upgrader.asked() + all_swaps(steps),
        post.seams.history() == pre.seams.history() + all_fences(steps),
        steps[i].watched is Some <==> steps[i].outcome is Ok,
{
    assert(step_obeyed(pre.inventory, pre.freeze, steps[i]));
    if i < steps.len() - 1 {
        assert(went_well(steps[i]));
    }
    if i > 0 {
        assert(steps[i].view == steps[i - 1].after);
    }
}

/// What a whole upgrade comes to. An observation that fails ends it with nothing done. A
/// report of completion means that every node is on the target, or that the old primary
/// is a replica on the target, or that the primary and all replicas are. A report of a
/// stall names the step that is due.
pub proof fn law_what_an_upgrade_comes_to<
    C: ClusterClient,
    U: NodeUpgrader,
    P: Pauser,
    S: Sleeper,
>(
    pre: LiveCluster<C, U, P, S>,
    post: LiveCluster<C, U, P, S>,
    max_ticks: nat,
    r: Result<UpgradeReport, ClusterUpgradeError>,
)
    requires
        upgraded_to(pre, post, max_ticks, r),
        post.view.nodes@.len() <= usize::MAX,
    ensures
        r == Ok::<UpgradeReport, ClusterUpgradeError>(UpgradeReport::Completed) ==> (
        post.view.all_on_target() || (post.view.demoted() && post.view.old_on_target()) || (
        !post.view.catching_up() && post.view.master_upgraded() && forall|j: int|
            0 <= j < post.view.nodes@.len() && (#[trigger] post.view.nodes@[j]).role is Replica
                ==> post.view.nodes@[j].version@ == post.view.target_version@)),
        r matches Ok(UpgradeReport::StalledAfterBudget(step)) ==> step == rolling_step(
            progress_of(post.view),
        ) && !(step is Done),
{
    let (mid, round, seen) = choose|
        mid: LiveCluster<C, U, P, S>,
        round: Round,
        seen: Result<ClusterView, ClusterUpgradeError>,
    |
        {
            &&& #[trigger] pre.refreshed_to(mid, round, seen)
            &&& mid.same_setup(pre)
            &&& mid.same_actions(pre)
            &&& match seen {
                Err(e) => post == mid && r == Err::<UpgradeReport, ClusterUpgradeError>(e),
                Ok(_) => if mid.view.all_on_target() {
                    post == mid && r == Ok::<UpgradeReport, ClusterUpgradeError>(
                        UpgradeReport::Completed,
                    )
                } else {
                    exists|steps: Seq<StepTaken>|
                        {
                            &&& #[trigger] mid.rolled_to(post, steps)
                            &&& roll_outcome(steps, post.view, max_ticks, r)
                        }
                },
            }
        };
    if seen is Ok && !mid.view.all_on_target() {
        let steps = choose|steps: Seq<StepTaken>|
            {
                &&& #[trigger] mid.rolled_to(post, steps)
                &&& roll_outcome(steps, post.view, max_ticks, r)
            };
        if r == Ok::<UpgradeReport, ClusterUpgradeError>(UpgradeReport::Completed) {
            law_completed_means_upgraded(steps, post.view, max_ticks, r);
        }
    }
}

/// An observation that is refused leaves the last one standing. It is refused with the
/// two lists where the members differ, and with a node that has more than one shard.
pub proof fn law_when_an_observation_is_refused<
    C: ClusterClient,
    U: NodeUpgrader,
    P: Pauser,
    S: Sleeper,
>(
    pre: LiveCluster<C, U, P, S>,
    post: LiveCluster<C, U, P, S>,
    round: Round,
    r: Result<ClusterView, ClusterUpgradeError>,
    id: Seq<char>,
    i: int,
)
    requires
        pre.refreshed_to(post, round, r),
    ensures
        r is Err ==> post.view == pre.view,
        round.members.len() > 0 && (round.members.last() matches Ok(ids) && target_ids(
            pre.inventory.nodes@,
        ).contains(id) != ids.contains(id)) ==> (r matches Err(e) && e is MembershipDrift),
        round.members.len() > 0 && round.members.last() is Err ==> (r matches Err(e)
            && round.members.last() == Err::<Seq<Seq<char>>, ClusterUpgradeError>(e)),
        r is Ok && 0 <= i < round.nodes.len() ==> round.states()[i].shards <= 1,
{
    if round.members.len() > 0 && round.members.last() is Ok {
        let ids = round.members.last()->Ok_0;
        law_same_members(target_ids(pre.inventory.nodes@), ids);
    }
}

/// The nodes are asked in the order of the inventory, each question about the node that
/// it is put to.
pub proof fn law_questions_follow_the_inventory(
    round: Round,
    nodes: Seq<ActuationTarget>,
    i: int,
)
    ensures
        round.sightings(nodes).len() == round.members.len() + round.nodes.len()
            + round.quorum.len(),
        0 <= i < round.members.len() ==> round.sightings(nodes)[i] == (Sighting::Members {
            of: nodes[i],
            answer: round.members[i],
        }),
        0 <= i < round.nodes.len() ==> round.sightings(nodes)[round.members.len() + i] == (
        Sighting::Node { of: nodes[i], answer: round.nodes[i] }),
        0 <= i < round.quorum.len() ==> round.sightings(nodes)[round.members.len()
            + round.nodes.len() + i] == (Sighting::Quorum {
            of: nodes[i],
            answer: round.quorum[i],
        }),
{
}

/// A seed that answers ends the search, and every seed is asked before it is given up.
pub proof fn law_seeds_are_asked_in_turn<T>(
    answers: Seq<Result<T, ClusterUpgradeError>>,
    n: nat,
    i: int,
)
    requires
        asked_until_answered(answers, n),
        0 <= i < answers.len(),
    ensures
        answers.len() <= n,
        answers[i] is Ok ==> i == answers.len() - 1,
        answers.last() is Err ==> answers.len() == n,
{
}

/// A wait is one tick and one observation, and goes as the observation does.
pub proof fn law_a_wait_is_a_tick_and_a_look<
    C: ClusterClient,
    U: NodeUpgrader,
    P: Pauser,
    S: Sleeper,
>(pre: LiveCluster<C, U, P, S>, post: LiveCluster<C, U, P, S>, r: Result<(), ClusterUpgradeError>)
    requires
        pre.waited_to(post, r),
    ensures
        post.seams.rests() == pre.seams.rests().push(pre.poll.tick_delay_ms),
        call_ensures(S::sleep, (&pre.seams.sleeper(), pre.poll.tick_delay_ms), ()),
        exists|round: Round, seen: Result<ClusterView, ClusterUpgradeError>|
            #[trigger] pre.refreshed_to(post, round, seen) && (r is Ok <==> seen is Ok) && (
            seen matches Err(e) ==> r == Err::<(), ClusterUpgradeError>(e)),
{
}

/// The primary that is captured is the first node of the view that is one, and one that
/// was captured before stays.
pub proof fn law_the_primary_is_captured_once(
    old: Option<Seq<char>>,
    nodes: Seq<NodeView>,
    m: int,
)
    ensures
        old is Some ==> captured(old, nodes) == old,
        old is None && 0 <= m < nodes.len() && nodes[m].role is Master && (forall|j: int|
            0 <= j < m ==> (#[trigger] nodes[j]).role is Replica) ==> captured(old, nodes) == Some(
            nodes[m].id@,
        ),
        old is None && (forall|j: int|
            0 <= j < nodes.len() ==> (#[trigger] nodes[j]).role is Replica) ==> captured(
            old,
            nodes,
        ) is None,
{
    lemma_first_master(nodes);
}

/// What is said of a freeze is all of it.
pub proof fn law_view_of_a_freeze(t: PauseTarget)
    ensures
        t@.addr == t.resp_addr@,
        t@.auth is Some <==> t.auth is Some,
        t.auth matches Some(a) ==> t@.auth == Some(a@),
        t@.window_ms == t.window_ms,
{
}

/// The message of an error names what it is about.
pub proof fn law_messages_name_the_cause(node: String, detail: String)
    ensures
        (ClusterUpgradeError::Observe { node, detail }).text() == "observing node "@ + node@ + ": "@
            + detail@,
        (ClusterUpgradeError::Failover { node, detail }).text() == "promoting "@ + node@
            + " via CLUSTER FAILOVER: "@ + detail@,
        (ClusterUpgradeError::Upgrade { node, detail }).text() == "upgrading node "@ + node@ + ": "@
            + detail@,
        (ClusterUpgradeError::Client { op: node, detail }).text() == "RESP "@ + node@ + ": "@
            + detail@,
        (ClusterUpgradeError::MembershipDrift { inventory: node, discovered: detail }).text()
            == "cluster membership drift: inventory="@ + node@ + " discovered="@ + detail@,
        (ClusterUpgradeError::UnknownNode { id: node }).text() == "node "@ + node@
            + " is not in the inventory"@,
{
}

/// An observation that is refused for a node with more than one shard names the first such
/// node and how many shards it has.
pub proof fn law_the_first_node_with_more_shards_is_named(
    e: ClusterUpgradeError,
    nodes: Seq<ActuationTarget>,
    obs: Seq<NodeObservation>,
    i: int,
)
    requires
        names_multi_shard(e, nodes, obs),
        0 <= i < obs.len(),
        obs[i].shards > 1,
        forall|j: int| 0 <= j < i ==> (#[trigger] obs[j]).shards <= 1,
    ensures
        e matches ClusterUpgradeError::MultiShardUnsupported { node, shards } && node@
            == nodes[i].id@ && shards == obs[i].shards,
{
    let k = choose|k: int|
        0 <= k < obs.len() && (#[trigger] obs[k]).shards > 1 && (forall|j: int|
            0 <= j < k ==> (#[trigger] obs[j]).shards <= 1) && (e matches
            ClusterUpgradeError::MultiShardUnsupported { node, shards } && node@ == nodes[k].id@
            && shards == obs[k].shards);
    assert(k == i) by {
        if k < i {
            assert(obs[k].shards <= 1);
        }
        if i < k {
            assert(obs[i].shards <= 1);
        }
    }
}

/// No error names a node with more than one shard where there is none.
pub proof fn law_single_shards_are_not_refused(
    e: ClusterUpgradeError,
    nodes: Seq<ActuationTarget>,
    obs: Seq<NodeObservation>,
)
    requires
        forall|j: int| 0 <= j < obs.len() ==> (#[trigger] obs[j]).shards <= 1,
    ensures
        !names_multi_shard(e, nodes, obs),
{
}

/// A difference in the members is reported with both lists, that of the inventory first.
pub proof fn law_both_member_lists_are_told(
    e: ClusterUpgradeError,
    nodes: Seq<ActuationTarget>,
    members: Seq<Seq<char>>,
)
    requires
        names_drift(e, nodes, members),
    ensures
        e.text() == "cluster membership drift: inventory="@ + joined(id_list(target_ids(nodes)))
            + " discovered="@ + joined(id_list(members)),
{
}

} // verus!
