//! The rolling upgrade against a simulated cluster.

use ironcache::cli::UpgradeArgs;
use ironcache::cluster_observe::{
    normalize_version, parse_cluster_info, parse_info_replication, parse_slave_line, slave_lag_for,
    split_host_port, strip_slave_prefix, NodeObservation, QuorumObservation, SlaveEntry,
};
use ironcache::cluster_upgrade::{ClusterView, NodeRole, NodeView};
use ironcache::cluster_upgrade_driver::{
    assemble_nodes, capture_primary, check_membership, check_single_shard, copy_view, resp_io,
    resp_proto, roll_observed, run_cluster_upgrade, ActuationTarget, ClusterClient,
    ClusterUpgradeError, CommandUpgrader, DriverConfig, FreezeCfg, Inventory, LiveCluster,
    NodeUpgrader, PauseError, PauseTarget, Pauser, PollCfg, Sleeper, SshUpgrader, SwapOutcome,
};
use ironcache::repl::{LinkStatus, ReplicaLag};
use ironcache::rolling::{UpgradeReport, UpgradeStep};
use ironcache::server::{cmd_upgrade_cluster, ClusterFailure};
use std::cell::RefCell;
use std::rc::Rc;

// ---- version normalization ----

#[test]
fn normalize_version_strips_v_prefix_build_metadata_and_whitespace() {
    assert_eq!(normalize_version("v1.2.3"), "1.2.3", "leading v stripped");
    assert_eq!(normalize_version("V2.0.0"), "2.0.0", "leading V stripped");
    assert_eq!(
        normalize_version("1.2.3+build.5"),
        "1.2.3",
        "build metadata dropped"
    );
    assert_eq!(
        normalize_version("  1.2.3  "),
        "1.2.3",
        "surrounding whitespace trimmed"
    );
    assert_eq!(
        normalize_version("v1.2.3+abc def"),
        "1.2.3",
        "v-prefix AND build metadata (incl. inner space) dropped"
    );
    // A version that merely starts with a letter is NOT stripped (the char after `v` is not a
    // digit, so no false 'v' strip).
    assert_eq!(normalize_version("version9"), "version9");
    // Already canonical is unchanged; both sides of an exact match normalize identically.
    assert_eq!(normalize_version("1.2.3"), normalize_version("v1.2.3 "));
}

// ---- INFO / CLUSTER INFO parsing ----

#[test]
fn parse_info_reads_master_role_version_and_slave_lag() {
    let info = "# Server\r\n\
         redis_version:7.4.0\r\n\
         ironcache_version:v1.2.3\r\n\
         # Replication\r\n\
         role:master\r\n\
         connected_slaves:2\r\n\
         slave0:ip=10.0.0.5,port=7005,state=online,offset=190,lag=10\r\n\
         slave1:ip=10.0.0.6,port=7006,state=online,offset=200,lag=0\r\n\
         master_repl_offset:200\r\n";
    let obs = parse_info_replication(info);
    assert_eq!(obs.role, NodeRole::Master);
    assert_eq!(obs.version, "v1.2.3", "raw version (normalized later)");
    assert_eq!(obs.slaves.len(), 2);
    let s0 = &obs.slaves[0];
    assert_eq!((s0.host.as_str(), s0.port, s0.lag), ("10.0.0.5", 7005, 10));
    let s1 = &obs.slaves[1];
    assert_eq!((s1.host.as_str(), s1.port, s1.lag), ("10.0.0.6", 7006, 0));
}

#[test]
fn parse_info_reads_replica_role_and_link() {
    let up = "role:replica\r\nmaster_link_status:up\r\nironcache_version:1.2.3\r\n";
    let obs = parse_info_replication(up);
    assert_eq!(obs.role, NodeRole::Replica);
    assert_eq!(obs.link, LinkStatus::Up);
    assert!(obs.slaves.is_empty());
    let down = "role:replica\r\nmaster_link_status:down\r\n";
    assert_eq!(parse_info_replication(down).link, LinkStatus::Down);
}

#[test]
fn only_a_master_has_a_list_of_replicas() {
    let line = "slave0:ip=10.0.0.5,port=7005,state=online,offset=190,lag=10\r\n";
    let replica = parse_info_replication(&format!("{line}role:replica\r\n{line}"));
    assert_eq!(replica.role, NodeRole::Replica);
    assert!(replica.slaves.is_empty());
    let master = parse_info_replication(&format!("{line}role:master\r\n{line}"));
    assert_eq!(master.slaves.len(), 2);
}

#[test]
fn a_malformed_pair_of_a_slave_line_is_skipped() {
    let obs = parse_info_replication("slave0:ip=h,port=7005,lag=3,port=x,lag=-1,nonsense\r\n");
    assert_eq!(obs.slaves.len(), 1);
    let s = &obs.slaves[0];
    assert_eq!((s.host.as_str(), s.port, s.lag), ("h", 7005, 3));
    // A later readable pair wins over an earlier one.
    let obs = parse_info_replication("slave0:ip=h,port=7005,lag=3,port=7006\r\n");
    assert_eq!(obs.slaves[0].port, 7006);
    // A required field that is nowhere readable leaves no entry.
    assert!(parse_info_replication("slave0:ip=h,port=x,lag=3\r\n").slaves.is_empty());
    assert!(parse_info_replication("slave0:ip=h,port=7005\r\n").slaves.is_empty());
}

#[test]
fn parse_info_reads_shard_count_from_io_threads_active() {
    // the shard count comes from INFO `io_threads_active` (ironcache-observe renders
    // `server.shards` there). A multi-shard node reports > 1 (the pre-flight refuses it).
    let multi = "role:master\r\nio_threads_active:4\r\nironcache_version:1.2.3\r\n";
    assert_eq!(parse_info_replication(multi).shards, 4);
    // Absent field -> default 1 (never spuriously refuse an older node that omits it).
    let absent = "role:master\r\nironcache_version:1.2.3\r\n";
    assert_eq!(parse_info_replication(absent).shards, 1);
    // A single-shard node reports 1 explicitly.
    let single = "role:replica\r\nio_threads_active:1\r\n";
    assert_eq!(parse_info_replication(single).shards, 1);
    // Malformed value falls back to the safe default of 1.
    let bad = "role:master\r\nio_threads_active:notanumber\r\n";
    assert_eq!(parse_info_replication(bad).shards, 1);
}

#[test]
fn parse_cluster_info_reads_quorum_signal() {
    // ok + a recognized leader -> quorum.
    let ok = "cluster_enabled:1\r\ncluster_state:ok\r\ncluster_raft_leader:node-a\r\n";
    assert!(parse_cluster_info(ok).has_quorum());
    // ok but NO leader -> not quorum (cannot commit the fence).
    let no_leader = "cluster_state:ok\r\ncluster_raft_leader:none\r\n";
    assert!(!parse_cluster_info(no_leader).has_quorum());
    // fail state -> not quorum.
    let failed = "cluster_state:fail\r\ncluster_raft_leader:node-a\r\n";
    assert!(!parse_cluster_info(failed).has_quorum());
    // no raft-leader line at all (non-raft) -> not quorum.
    let plain = "cluster_state:ok\r\n";
    assert!(!parse_cluster_info(plain).has_quorum());
}

// ---- shared simulated cluster for the driver-level mocks ----

fn addr_of(id: &str) -> String {
    // A stable, distinct loopback endpoint per node (the host:port the slaveN view matches on).
    let port = match id {
        "p" => 7001,
        "r1" => 7002,
        "r2" => 7003,
        _ => 7009,
    };
    format!("127.0.0.1:{port}")
}

fn target(id: &str) -> ActuationTarget {
    ActuationTarget {
        id: id.to_owned(),
        resp_addr: addr_of(id),
        auth: None,
        ssh: format!("op@{id}"),
        upgrade_source: "--to 1.2.3".to_owned(),
    }
}

struct SimNode {
    id: String,
    version: String,
    role: NodeRole,
    /// Ticks remaining until a just-upgraded replica has caught up (link down + large lag while
    /// > 0). Models the swap+resync the StubUpgrader triggers.
    resync: u32,
    /// The node's internal shard count reported via INFO `io_threads_active`. Default 1
    /// (the supported single-shard HA config); a test sets it > 1 to exercise the pre-flight.
    shards: usize,
}

struct Sim {
    nodes: Vec<SimNode>,
    target: String,
    quorum: bool,
    failovers: usize,
    events: Vec<String>,
}

impl Sim {
    fn three_node(target_version: &str, node_version: &str) -> Rc<RefCell<Self>> {
        let mk = |id: &str, role| SimNode {
            id: id.to_owned(),
            version: node_version.to_owned(),
            role,
            resync: 0,
            shards: 1,
        };
        Rc::new(RefCell::new(Sim {
            nodes: vec![
                mk("p", NodeRole::Master),
                mk("r1", NodeRole::Replica),
                mk("r2", NodeRole::Replica),
            ],
            target: target_version.to_owned(),
            quorum: true,
            failovers: 0,
            events: Vec::new(),
        }))
    }

    fn node(&self, id: &str) -> &SimNode {
        self.nodes.iter().find(|n| n.id == id).expect("node")
    }
    fn node_mut(&mut self, id: &str) -> &mut SimNode {
        self.nodes.iter_mut().find(|n| n.id == id).expect("node")
    }
    fn master_id(&self) -> Option<String> {
        self.nodes
            .iter()
            .find(|n| n.role == NodeRole::Master)
            .map(|n| n.id.clone())
    }
    /// Advance one tick: a resyncing replica gets one step closer to caught up.
    fn tick(&mut self) {
        for n in &mut self.nodes {
            n.resync = n.resync.saturating_sub(1);
        }
    }
}

// A cluster client backed by the shared sim.
struct SimClient {
    sim: Rc<RefCell<Sim>>,
}
impl ClusterClient for SimClient {
    fn discover_members(
        &mut self,
        _seed: &ActuationTarget,
    ) -> Result<Vec<String>, ClusterUpgradeError> {
        Ok(self
            .sim
            .borrow()
            .nodes
            .iter()
            .map(|n| n.id.clone())
            .collect())
    }
    fn observe_node(
        &mut self,
        node: &ActuationTarget,
    ) -> Result<NodeObservation, ClusterUpgradeError> {
        let sim = self.sim.borrow();
        let n = sim.node(&node.id);
        let slaves = if n.role == NodeRole::Master {
            // The master's per-replica view: every other node, with lag 0 when caught up else a
            // large lag while resyncing.
            sim.nodes
                .iter()
                .filter(|o| o.id != n.id)
                .map(|o| {
                    let addr = addr_of(&o.id);
                    let (host, port) = split_host_port(&addr).unwrap();
                    SlaveEntry {
                        host: host.to_owned(),
                        port,
                        lag: if o.resync == 0 { 0 } else { 1000 },
                    }
                })
                .collect()
        } else {
            Vec::new()
        };
        let link = if n.role == NodeRole::Replica && n.resync == 0 {
            LinkStatus::Up
        } else {
            LinkStatus::Down
        };
        Ok(NodeObservation {
            role: n.role,
            version: n.version.clone(),
            link,
            slaves,
            shards: n.shards,
        })
    }
    fn observe_quorum(
        &mut self,
        _seed: &ActuationTarget,
    ) -> Result<QuorumObservation, ClusterUpgradeError> {
        let ok = self.sim.borrow().quorum;
        Ok(QuorumObservation {
            state_ok: ok,
            raft_leader_present: ok,
        })
    }
    fn cluster_failover(&mut self, node: &ActuationTarget) -> Result<(), ClusterUpgradeError> {
        let mut sim = self.sim.borrow_mut();
        if let Some(old_master) = sim.master_id() {
            sim.node_mut(&old_master).role = NodeRole::Replica;
        }
        sim.node_mut(&node.id).role = NodeRole::Master;
        sim.failovers += 1;
        sim.events.push(format!("FAILOVER {}", node.id));
        Ok(())
    }
}

// The stub binary-swap actuator: records the upgrade ORDER and flips the node to the target
// version, then marks it resyncing (caught up after a simulated tick).
struct StubUpgrader {
    sim: Rc<RefCell<Sim>>,
    order: Rc<RefCell<Vec<String>>>,
}
impl NodeUpgrader for StubUpgrader {
    fn upgrade(&mut self, target: &ActuationTarget) -> Result<(), ClusterUpgradeError> {
        let mut sim = self.sim.borrow_mut();
        let tv = sim.target.clone();
        let n = sim.node_mut(&target.id);
        n.version = tv;
        n.resync = 1;
        drop(sim);
        self.order.borrow_mut().push(target.id.clone());
        Ok(())
    }
}

// The mock pauser: records PAUSE / UNPAUSE (freeze seam) into the shared event log.
struct SimPauser {
    sim: Rc<RefCell<Sim>>,
}
impl Pauser for SimPauser {
    fn freeze(&self, target: &PauseTarget) -> Result<(), PauseError> {
        self.sim
            .borrow_mut()
            .events
            .push(format!("PAUSE {}", target.resp_addr));
        Ok(())
    }
    fn unfreeze(&self, target: &PauseTarget) -> Result<(), PauseError> {
        self.sim
            .borrow_mut()
            .events
            .push(format!("UNPAUSE {}", target.resp_addr));
        Ok(())
    }
}

// A sleeper that advances the sim by one tick (models the resync completing during the wait).
struct SimSleeper {
    sim: Rc<RefCell<Sim>>,
}
impl Sleeper for SimSleeper {
    fn sleep(&self, _millis: u64) {
        self.sim.borrow_mut().tick();
    }
}

fn inventory() -> Inventory {
    Inventory::new(vec![target("p"), target("r1"), target("r2")])
}

fn build_live(
    sim: &Rc<RefCell<Sim>>,
    order: &Rc<RefCell<Vec<String>>>,
) -> LiveCluster<SimClient, StubUpgrader, SimPauser, SimSleeper> {
    let config = DriverConfig {
        inventory: inventory(),
        target_version: "1.2.3".to_owned(),
        max_lag: 2,
        poll: PollCfg { tick_delay_ms: 0 },
        freeze: FreezeCfg {
            pause_window_ms: 30_000,
            max_drain_polls: 8,
            drain_poll_delay_ms: 0,
        },
    };
    LiveCluster::new(
        SimClient { sim: sim.clone() },
        StubUpgrader {
            sim: sim.clone(),
            order: order.clone(),
        },
        SimPauser { sim: sim.clone() },
        SimSleeper { sim: sim.clone() },
        config,
    )
}

// ---- the full 3-node roll ----

#[test]
fn full_three_node_roll_upgrades_primary_last_promotes_once_and_completes() {
    let sim = Sim::three_node("1.2.3", "1.2.2");
    let order = Rc::new(RefCell::new(Vec::new()));
    let mut live = build_live(&sim, &order);

    let report = run_cluster_upgrade(&mut live, 50).expect("roll ok");

    // Terminates DONE (not stalled).
    assert_eq!(report, UpgradeReport::Completed);
    // Every replica upgraded BEFORE the primary: the order is r1, r2, then the old primary p LAST.
    assert_eq!(
        *order.borrow(),
        vec!["r1".to_owned(), "r2".to_owned(), "p".to_owned()],
        "primary upgraded last"
    );
    // The promotion happened EXACTLY once.
    assert_eq!(sim.borrow().failovers, 1, "exactly one failover");
    // old_primary_id was captured once as p and stayed fixed across the roll (no spurious second
    // promotion of the demoted old primary).
    assert_eq!(
        live.old_primary_id(),
        Some("p"),
        "old primary id stayed fixed"
    );
    // The one failover promoted an upgraded replica (r1), and it happened before the old primary
    // was upgraded (which is last in the order log).
    let events = sim.borrow().events.clone();
    assert!(
        events.iter().any(|e| e == "FAILOVER r1"),
        "promoted the candidate r1: {events:?}"
    );
}

#[test]
fn already_fully_upgraded_shard_is_a_no_op_with_no_failover() {
    // Every node already on the target: the shard_fully_upgraded pre-check short-circuits.
    let sim = Sim::three_node("1.2.3", "1.2.3");
    let order = Rc::new(RefCell::new(Vec::new()));
    let mut live = build_live(&sim, &order);

    let report = run_cluster_upgrade(&mut live, 50).expect("idempotent");
    assert_eq!(report, UpgradeReport::Completed);
    assert!(order.borrow().is_empty(), "no node was upgraded");
    assert_eq!(sim.borrow().failovers, 0, "no gratuitous failover");
    assert!(sim.borrow().events.is_empty(), "no pause / failover issued");
}

#[test]
fn refresh_normalizes_versions_so_a_v_prefix_skew_still_reaches_zero_replicas() {
    // Nodes report v-prefixed versions; the target is bare. The ONE shared normalizer must make
    // the exact-match upgraded check see them as equal (else the roll would stall).
    let sim = Sim::three_node("1.2.3", "v1.2.3");
    let order = Rc::new(RefCell::new(Vec::new()));
    let mut live = build_live(&sim, &order);
    live.refresh().expect("refresh");
    assert_eq!(
        live.view().replicas_to_upgrade(),
        0,
        "v-prefix skew normalized away"
    );
    assert!(live.view().shard_fully_upgraded());
}

#[test]
fn membership_drift_aborts_the_refresh() {
    // The live-discovered set differs from the inventory (a node vanished): abort loudly.
    let sim = Sim::three_node("1.2.3", "1.2.2");
    sim.borrow_mut().nodes.pop(); // drop r2 from the live cluster
    let order = Rc::new(RefCell::new(Vec::new()));
    let mut live = build_live(&sim, &order);
    let err = live.refresh().expect_err("drift must abort");
    assert!(
        matches!(err, ClusterUpgradeError::MembershipDrift { .. }),
        "{err:?}"
    );
}

#[test]
fn refresh_fails_closed_on_a_multishard_node() {
    // a node reporting shards > 1 cannot deliver RPO=0 (the HA replica path is
    // single-shard), so the pre-flight refuses BEFORE any upgrade/promote action.
    let sim = Sim::three_node("1.2.3", "1.2.2");
    sim.borrow_mut().node_mut("r1").shards = 4; // a replica is multi-shard
    let order = Rc::new(RefCell::new(Vec::new()));
    let mut live = build_live(&sim, &order);
    let err = live.refresh().expect_err("multi-shard must fail closed");
    match err {
        ClusterUpgradeError::MultiShardUnsupported { node, shards } => {
            assert_eq!(node, "r1");
            assert_eq!(shards, 4);
        }
        other => panic!("expected MultiShardUnsupported, got {other:?}"),
    }
    // No failover / upgrade action ran (refused at the pre-flight).
    assert_eq!(sim.borrow().failovers, 0);
}

#[test]
fn refresh_allows_an_all_single_shard_cluster() {
    // The supported config (every node shards == 1) passes the pre-flight cleanly.
    let sim = Sim::three_node("1.2.3", "1.2.2");
    let order = Rc::new(RefCell::new(Vec::new()));
    let mut live = build_live(&sim, &order);
    assert!(
        live.refresh().is_ok(),
        "an all-single-shard cluster must pass the pre-flight"
    );
}

// ---- the failover-freeze fence (the RPO=0 core) ----

// A freeze-focused client: the candidate's master-side lag drains by one per observe of the old
// primary; cluster_failover records the candidate's lag AT COMMIT (to prove it only fires at 0).
struct FreezeClient {
    state: Rc<RefCell<FreezeState>>,
}
struct FreezeState {
    candidate_addr: String,
    candidate_lag: u64,
    drains: bool,
    events: Vec<String>,
    failover_lag_at_commit: Option<u64>,
}
impl ClusterClient for FreezeClient {
    fn discover_members(
        &mut self,
        _seed: &ActuationTarget,
    ) -> Result<Vec<String>, ClusterUpgradeError> {
        Ok(vec!["p".to_owned(), "r1".to_owned()])
    }
    fn observe_node(
        &mut self,
        _node: &ActuationTarget,
    ) -> Result<NodeObservation, ClusterUpgradeError> {
        let mut st = self.state.borrow_mut();
        let cur = st.candidate_lag;
        if st.drains {
            st.candidate_lag = st.candidate_lag.saturating_sub(1);
        }
        let (host, port) = split_host_port(&st.candidate_addr).unwrap();
        Ok(NodeObservation {
            role: NodeRole::Master,
            version: "1.2.2".to_owned(),
            link: LinkStatus::Down,
            slaves: vec![SlaveEntry {
                host: host.to_owned(),
                port,
                lag: cur,
            }],
            shards: 1,
        })
    }
    fn observe_quorum(
        &mut self,
        _seed: &ActuationTarget,
    ) -> Result<QuorumObservation, ClusterUpgradeError> {
        Ok(QuorumObservation {
            state_ok: true,
            raft_leader_present: true,
        })
    }
    fn cluster_failover(&mut self, node: &ActuationTarget) -> Result<(), ClusterUpgradeError> {
        let mut st = self.state.borrow_mut();
        st.failover_lag_at_commit = Some(st.candidate_lag);
        st.events.push(format!("FAILOVER {}", node.id));
        Ok(())
    }
}
struct FreezePauser {
    state: Rc<RefCell<FreezeState>>,
}
impl Pauser for FreezePauser {
    fn freeze(&self, _t: &PauseTarget) -> Result<(), PauseError> {
        self.state.borrow_mut().events.push("PAUSE".to_owned());
        Ok(())
    }
    fn unfreeze(&self, _t: &PauseTarget) -> Result<(), PauseError> {
        self.state.borrow_mut().events.push("UNPAUSE".to_owned());
        Ok(())
    }
}
struct NoopUpgrader;
impl NodeUpgrader for NoopUpgrader {
    fn upgrade(&mut self, _t: &ActuationTarget) -> Result<(), ClusterUpgradeError> {
        Ok(())
    }
}
struct NoopSleeper;
impl Sleeper for NoopSleeper {
    fn sleep(&self, _millis: u64) {}
}

// Build a LiveCluster whose view is hand-set to {p master, r1 upgraded in-sync replica}, ready to
// promote r1. The freeze client controls the drain.
fn freeze_live(
    state: &Rc<RefCell<FreezeState>>,
    max_drain_polls: u32,
) -> LiveCluster<FreezeClient, NoopUpgrader, FreezePauser, NoopSleeper> {
    let config = DriverConfig {
        inventory: Inventory::new(vec![target("p"), target("r1")]),
        target_version: "1.2.3".to_owned(),
        max_lag: 2,
        poll: PollCfg { tick_delay_ms: 0 },
        freeze: FreezeCfg {
            pause_window_ms: 30_000,
            max_drain_polls,
            drain_poll_delay_ms: 0,
        },
    };
    let mut live = LiveCluster::new(
        FreezeClient {
            state: state.clone(),
        },
        NoopUpgrader,
        FreezePauser { state: state.clone() },
        NoopSleeper,
        config,
    );
    // Hand-build this tick's view: p is master (old), r1 is an upgraded, in-sync candidate.
    live.view = ClusterView {
        nodes: vec![
            NodeView {
                id: "p".to_owned(),
                version: "1.2.2".to_owned(),
                role: NodeRole::Master,
                link: LinkStatus::Down,
                lag: None,
            },
            NodeView {
                id: "r1".to_owned(),
                version: "1.2.3".to_owned(),
                role: NodeRole::Replica,
                link: LinkStatus::Up,
                lag: Some(ReplicaLag { writes: Some(0) }),
            },
        ],
        target_version: "1.2.3".to_owned(),
        max_lag: 2,
        raft_quorum: true,
        old_primary_id: Some("p".to_owned()),
    };
    live.old_primary_id = Some("p".to_owned());
    live
}

#[test]
fn promote_freezes_then_drains_to_zero_then_fails_over() {
    // The candidate starts lagging by 2; each observe of the old primary drains it by one. The
    // failover must NOT fire until the lag reaches 0.
    let state = Rc::new(RefCell::new(FreezeState {
        candidate_addr: addr_of("r1"),
        candidate_lag: 2,
        drains: true,
        events: Vec::new(),
        failover_lag_at_commit: None,
    }));
    let mut live = freeze_live(&state, 8);
    live.promote_candidate().expect("promote ok");

    let st = state.borrow();
    // Order: PAUSE the old primary, THEN (after the drain) FAILOVER the candidate, THEN UNPAUSE.
    assert_eq!(
        st.events,
        vec![
            "PAUSE".to_owned(),
            "FAILOVER r1".to_owned(),
            "UNPAUSE".to_owned()
        ],
        "pause -> failover -> unpause"
    );
    // The failover fired ONLY once the candidate had drained to lag 0 (the RPO=0 fence).
    assert_eq!(
        st.failover_lag_at_commit,
        Some(0),
        "no failover until the candidate applied through the frozen head"
    );
}

#[test]
fn promote_fails_closed_on_a_drain_timeout_without_failing_over() {
    // The candidate NEVER drains (stuck lagging): the fence must FAIL CLOSED -- unpause, error,
    // and issue NO failover.
    let state = Rc::new(RefCell::new(FreezeState {
        candidate_addr: addr_of("r1"),
        candidate_lag: 5,
        drains: false,
        events: Vec::new(),
        failover_lag_at_commit: None,
    }));
    let mut live = freeze_live(&state, 3);
    let err = live.promote_candidate().expect_err("must fail closed");

    assert!(
        matches!(err, ClusterUpgradeError::DrainTimeout { polls: 3, .. }),
        "{err:?}"
    );
    let st = state.borrow();
    // PAUSE then UNPAUSE, and crucially NO FAILOVER was ever issued.
    assert_eq!(st.events, vec!["PAUSE".to_owned(), "UNPAUSE".to_owned()]);
    assert!(
        st.failover_lag_at_commit.is_none(),
        "a stuck drain must never promote"
    );
}

// -----------------------------------------------------------------------
// CommandUpgrader the non-SSH, operator-supplied command actuator.
// -----------------------------------------------------------------------

fn cmd_target(id: &str) -> ActuationTarget {
    ActuationTarget {
        id: id.to_owned(),
        resp_addr: "127.0.0.1:6379".to_owned(),
        auth: None,
        ssh: "deploy@host".to_owned(),
        upgrade_source: "--to v2".to_owned(),
    }
}

#[test]
fn command_upgrader_from_template_splits_program_and_args() {
    let u = CommandUpgrader::from_template("docker compose up -d --force-recreate {id}")
        .expect("non-empty template");
    assert_eq!(u.program, "docker");
    assert_eq!(
        u.arg_template,
        vec!["compose", "up", "-d", "--force-recreate", "{id}"]
    );
}

#[test]
fn command_upgrader_empty_template_is_none() {
    assert!(CommandUpgrader::from_template("").is_none());
    assert!(CommandUpgrader::from_template("   ").is_none());
}

#[test]
fn command_upgrader_expands_every_placeholder_per_node() {
    let t = cmd_target("node-a");
    assert_eq!(CommandUpgrader::expand("{id}", &t), "node-a");
    assert_eq!(CommandUpgrader::expand("{target}", &t), "deploy@host");
    assert_eq!(CommandUpgrader::expand("{source}", &t), "--to v2");
    // Multiple placeholders in one arg all expand.
    assert_eq!(
        CommandUpgrader::expand("swap-{id}::{source}", &t),
        "swap-node-a::--to v2"
    );
    // A literal with no placeholder is untouched.
    assert_eq!(
        CommandUpgrader::expand("--force-recreate", &t),
        "--force-recreate"
    );
}

#[test]
fn a_placeholder_in_a_substituted_value_is_kept() {
    let t = cmd_target("{source}-{target}");
    assert_eq!(CommandUpgrader::expand("{id}", &t), "{source}-{target}");
    let t = cmd_target("source");
    assert_eq!(CommandUpgrader::expand("{{id}}", &t), "{source}");
    assert_eq!(CommandUpgrader::expand("", &t), "");
    assert_eq!(CommandUpgrader::expand("{id", &t), "{id");
}

/// A command that ran and exited with a code.
fn exited(code: i32, stderr: &str) -> SwapOutcome {
    SwapOutcome::Exited {
        success: code == 0,
        code: Some(code),
        stderr: stderr.as_bytes().to_vec(),
    }
}

#[test]
fn command_upgrader_ok_on_zero_exit() {
    let u = CommandUpgrader::from_template("true {id}").expect("template");
    let t = cmd_target("node-a");
    assert_eq!(u.command(&t), vec!["true".to_owned(), "node-a".to_owned()]);
    assert!(u.outcome(&t, &exited(0, "")).is_ok());
}

/// Swaps by a command whose exit code is known.
struct CannedCommand {
    command: CommandUpgrader,
    code: i32,
    swapped: Rc<RefCell<Vec<String>>>,
}
impl NodeUpgrader for CannedCommand {
    fn upgrade(&mut self, target: &ActuationTarget) -> Result<(), ClusterUpgradeError> {
        self.swapped.borrow_mut().push(target.id.clone());
        self.command.outcome(target, &exited(self.code, ""))
    }
}

#[test]
fn boxed_node_upgrader_forwards() {
    // The actuator can be picked while the program runs and handed over in a box.
    let swapped = Rc::new(RefCell::new(Vec::new()));
    let canned = |code| CannedCommand {
        command: CommandUpgrader::from_template("true").expect("template"),
        code,
        swapped: swapped.clone(),
    };
    let mut boxed: Box<dyn NodeUpgrader> = Box::new(canned(0));
    assert!(NodeUpgrader::upgrade(&mut boxed, &cmd_target("node-a")).is_ok());
    let mut sized: Box<CannedCommand> = Box::new(canned(1));
    assert!(NodeUpgrader::upgrade(&mut sized, &cmd_target("node-b")).is_err());
    assert_eq!(*swapped.borrow(), vec!["node-a".to_owned(), "node-b".to_owned()]);
}

#[test]
fn command_upgrader_errors_on_nonzero_exit_naming_the_node() {
    let u = CommandUpgrader::from_template("false").expect("template");
    let err = u
        .outcome(&cmd_target("node-a"), &exited(1, "  no luck\n"))
        .unwrap_err();
    assert!(
        matches!(&err, ClusterUpgradeError::Upgrade { node, .. } if node == "node-a"),
        "{err:?}"
    );
    assert_eq!(
        err.message(),
        "upgrading node node-a: the actuation command `false` exited Some(1): no luck"
    );
}

#[test]
fn command_upgrader_errors_when_program_is_missing() {
    let u = CommandUpgrader::from_template("ironcache-no-such-actuator-binary-xyz {id}")
        .expect("template");
    let err = u
        .outcome(
            &cmd_target("node-a"),
            &SwapOutcome::SpawnFailed("No such file or directory (os error 2)".to_owned()),
        )
        .unwrap_err();
    assert!(
        matches!(&err, ClusterUpgradeError::Upgrade { node, .. } if node == "node-a"),
        "{err:?}"
    );
}

#[test]
fn output_that_is_no_text_is_shown_with_replacement_characters() {
    let u = CommandUpgrader::from_template("swap").expect("template");
    let o = SwapOutcome::Exited {
        success: false,
        code: None,
        stderr: vec![b'a', 0xff, b'b'],
    };
    let err = u.outcome(&cmd_target("n"), &o).unwrap_err();
    assert_eq!(
        err.message(),
        "upgrading node n: the actuation command `swap` exited None: a\u{fffd}b"
    );
}

#[test]
fn the_remote_command_names_target_source_and_arguments() {
    let u = SshUpgrader::new();
    assert_eq!(
        u.command(&cmd_target("node-a")),
        ["ssh", "deploy@host", "ironcache", "upgrade", "--to", "v2", "--yes"]
    );
    assert!(u.outcome(&cmd_target("node-a"), &exited(0, "")).is_ok());
    let err = u
        .outcome(&cmd_target("node-a"), &exited(-1, "denied"))
        .unwrap_err();
    assert_eq!(
        err.message(),
        "upgrading node node-a: the remote `ironcache upgrade` exited Some(-1): denied"
    );
}

#[test]
fn a_normalized_version_stays_as_it_is() {
    for v in ["v1.2.3+x", "  V9 ", "version9", "", "vv1"] {
        let once = normalize_version(v);
        assert_eq!(normalize_version(&once), once);
    }
}

#[test]
fn drift_names_both_sides() {
    let inv = Inventory::new(vec![target("p"), target("r1")]);
    let same = vec!["r1".to_owned(), "p".to_owned()];
    assert!(check_membership(&inv, &same).is_ok());
    let more = vec!["p".to_owned(), "r1".to_owned(), "x".to_owned()];
    let err = check_membership(&inv, &more).unwrap_err();
    match &err {
        ClusterUpgradeError::MembershipDrift { inventory, discovered } => {
            assert_eq!(inventory, "p,r1");
            assert_eq!(discovered, "p,r1,x");
        }
        other => panic!("expected drift, got {other:?}"),
    }
    assert_eq!(
        err.message(),
        "cluster membership drift: inventory=p,r1 discovered=p,r1,x"
    );
}

#[test]
fn an_inventory_finds_its_nodes() {
    let inv = Inventory::new(vec![target("p"), target("r1")]);
    assert_eq!(inv.len(), 2);
    assert!(!inv.is_empty());
    assert!(Inventory::new(Vec::new()).is_empty());
    assert_eq!(inv.get("r1").map(|t| t.ssh.as_str()), Some("op@r1"));
    assert!(inv.get("zz").is_none());
    assert_eq!(inv.ids(), ["p", "r1"]);
    assert_eq!(inv.iter().count(), 2);
    let copy = inv.get("p").expect("p").copy();
    assert_eq!(copy.resp_addr, "127.0.0.1:7001");
}

#[test]
fn the_lag_of_a_replica_is_what_its_primary_lists() {
    let observe = |role: NodeRole, slaves: Vec<SlaveEntry>| NodeObservation {
        role,
        version: "v1.2.3".to_owned(),
        link: LinkStatus::Up,
        slaves,
        shards: 1,
    };
    let listed = SlaveEntry {
        host: "127.0.0.1".to_owned(),
        port: 7002,
        lag: 7,
    };
    let targets = vec![target("p"), target("r1"), target("r2")];
    let obs = vec![
        observe(NodeRole::Master, vec![listed]),
        observe(NodeRole::Replica, Vec::new()),
        observe(NodeRole::Replica, Vec::new()),
    ];
    let nodes = assemble_nodes(&targets, &obs);
    assert_eq!(nodes.len(), 3);
    assert_eq!(nodes[0].lag, None);
    assert_eq!(nodes[1].lag, Some(ReplicaLag { writes: Some(7) }));
    assert_eq!(nodes[2].lag, Some(ReplicaLag { writes: None }));
    assert_eq!(nodes[1].version, "1.2.3");
    assert_eq!(capture_primary(&None, &nodes).as_deref(), Some("p"));
    assert_eq!(
        capture_primary(&Some("r2".to_owned()), &nodes).as_deref(),
        Some("r2"),
        "the primary is captured once"
    );
    let mut multi = obs;
    multi[2].shards = 3;
    let err = check_single_shard(&targets, &multi).unwrap_err();
    assert!(err.message().starts_with("node r2 has shards=3 (>1)"));
}

#[test]
fn a_roll_that_runs_out_of_ticks_is_stalled() {
    let sim = Sim::three_node("1.2.3", "1.2.2");
    let order = Rc::new(RefCell::new(Vec::new()));
    let mut live = build_live(&sim, &order);
    let report = run_cluster_upgrade(&mut live, 1).expect("no failure");
    assert_eq!(
        report,
        UpgradeReport::StalledAfterBudget(UpgradeStep::UpgradeReplica)
    );
    assert_eq!(*order.borrow(), vec!["r1".to_owned()]);
    // Observed again, the roll goes on where it stopped.
    live.refresh().expect("refresh");
    let report = roll_observed(&mut live, 50).expect("roll ok");
    assert_eq!(report, UpgradeReport::Completed);
    assert_eq!(live.view().nodes.len(), 3);
    assert_eq!(copy_view(live.view()).target_version, "1.2.3");
}

#[test]
fn a_promotion_needs_a_candidate() {
    let state = Rc::new(RefCell::new(FreezeState {
        candidate_addr: addr_of("r1"),
        candidate_lag: 0,
        drains: true,
        events: Vec::new(),
        failover_lag_at_commit: None,
    }));
    let mut live = freeze_live(&state, 8);
    live.view.nodes[1].link = LinkStatus::Down;
    let err = live.promote_candidate().unwrap_err();
    assert!(matches!(err, ClusterUpgradeError::NoCandidate), "{err:?}");
    assert!(state.borrow().events.is_empty(), "nothing was frozen");
    live.view.nodes[1].link = LinkStatus::Up;
    live.old_primary_id = None;
    let err = live.promote_candidate().unwrap_err();
    assert!(
        matches!(err, ClusterUpgradeError::OldPrimaryUnknown),
        "{err:?}"
    );
    live.old_primary_id = Some("gone".to_owned());
    let err = live.promote_candidate().unwrap_err();
    assert_eq!(err.message(), "node gone is not in the inventory");
    let err = live.upgrade_next_replica().unwrap_err();
    assert!(
        matches!(err, ClusterUpgradeError::NoReplicaToUpgrade),
        "{err:?}"
    );
}

#[test]
fn connection_errors_name_the_operation() {
    assert_eq!(resp_proto("bad").message(), "RESP resp: bad");
    assert_eq!(resp_io("refused").message(), "RESP resp io: refused");
    assert_eq!(
        ClusterUpgradeError::Observe { node: "a".to_owned(), detail: "x".to_owned() }.message(),
        "observing node a: x"
    );
    assert_eq!(
        ClusterUpgradeError::Discover { detail: "x".to_owned() }.message(),
        "discovering cluster members: x"
    );
    assert_eq!(
        ClusterUpgradeError::Failover { node: "a".to_owned(), detail: "x".to_owned() }.message(),
        "promoting a via CLUSTER FAILOVER: x"
    );
    assert_eq!(
        ClusterUpgradeError::Pause(PauseError { detail: "x".to_owned() }).message(),
        "failover-freeze: x"
    );
    assert_eq!(
        ClusterUpgradeError::DrainTimeout { candidate: "r1".to_owned(), polls: 3 }.message(),
        "failover-freeze drain timed out for candidate r1 after 3 polls (fail-closed: no failover)"
    );
}

#[test]
fn the_defaults_of_the_driver() {
    let f = FreezeCfg::default();
    assert_eq!((f.pause_window_ms, f.max_drain_polls, f.drain_poll_delay_ms), (30_000, 600, 100));
    assert_eq!(PollCfg::default().tick_delay_ms, 500);
}

#[test]
fn replica_lines_are_read_field_by_field() {
    let c = |s: &str| s.chars().collect::<Vec<char>>();
    let line = c("slave12:ip=h,port=1,lag=2");
    let body = strip_slave_prefix(&line).expect("a replica line");
    let s = parse_slave_line(body).expect("complete");
    assert_eq!((s.host.as_str(), s.port, s.lag), ("h", 1, 2));
    assert!(strip_slave_prefix(&c("slave:ip=h")).is_none());
    assert!(strip_slave_prefix(&c("slavex:ip=h")).is_none());
    assert!(parse_slave_line(&c("ip=h,port=1")).is_none());
    assert!(parse_slave_line(&c("ip=h,port=99999,lag=2")).is_none());
    assert_eq!(split_host_port("[::1]:7"), Some(("[::1]", 7)));
    assert_eq!(split_host_port("nohost"), None);
    let slaves = vec![s];
    assert_eq!(slave_lag_for(&slaves, "h:1"), Some(2));
    assert_eq!(slave_lag_for(&slaves, "h:2"), None);
}

// ---- the command over the driver ----

fn roll_args(max_ticks: usize, dry_run: bool) -> UpgradeArgs {
    UpgradeArgs {
        binary: None,
        sha256sums: None,
        from_url: None,
        sums_url: None,
        to: Some("1.2.3".to_owned()),
        repo: None,
        target: "/usr/local/bin/ironcache".to_owned(),
        unit: "ironcache".to_owned(),
        readyz_addr: "127.0.0.1:9121".to_owned(),
        resp_addr: "127.0.0.1:6379".to_owned(),
        auth_file: None,
        health_timeout: 30,
        no_rollback: false,
        yes: true,
        allow_same: false,
        no_freeze: false,
        cluster: true,
        inventory: Some("nodes.toml".to_owned()),
        max_lag: 2,
        drain_timeout: 60,
        pause_ms: 30_000,
        per_node_timeout: 30,
        max_ticks,
        dry_run,
        actuator_command: None,
    }
}

#[test]
fn a_dry_run_shows_the_plan_and_touches_nothing() {
    let sim = Sim::three_node("1.2.3", "1.2.2");
    let order = Rc::new(RefCell::new(Vec::new()));
    let mut live = build_live(&sim, &order);
    let text = cmd_upgrade_cluster(&mut live, &roll_args(50, true), "1.2.3").expect("plan");
    assert!(
        text.starts_with(
            "rolling-upgrade plan (dry-run, NO action taken) -> target version 1.2.3\n"
        ),
        "{text}"
    );
    let r1 = text.find("upgrade replica r1").expect("r1 is rolled");
    let r2 = text.find("upgrade replica r2").expect("r2 is rolled");
    let p = text.find("upgrade the old primary p LAST").expect("p is last");
    assert!(r1 < r2 && r2 < p, "{text}");
    assert!(
        text.ends_with(
            "dry-run only: NO action taken. Re-run without --dry-run to execute the roll of 3 \
             node(s).\n"
        ),
        "{text}"
    );
    assert!(order.borrow().is_empty(), "no node was upgraded");
    assert!(sim.borrow().events.is_empty(), "no pause / failover issued");
}

#[test]
fn the_cluster_command_reports_how_the_roll_ended() {
    let sim = Sim::three_node("1.2.3", "1.2.2");
    let order = Rc::new(RefCell::new(Vec::new()));
    let mut live = build_live(&sim, &order);
    let text = cmd_upgrade_cluster(&mut live, &roll_args(50, false), "1.2.3").expect("roll ok");
    assert_eq!(
        text,
        "cluster upgrade succeeded: every node is on 1.2.3 (primary upgraded last)\n"
    );
    assert_eq!(order.borrow().last().map(String::as_str), Some("p"));

    let sim = Sim::three_node("1.2.3", "1.2.2");
    let mut live = build_live(&sim, &Rc::new(RefCell::new(Vec::new())));
    match cmd_upgrade_cluster(&mut live, &roll_args(1, false), "1.2.3") {
        Err(ClusterFailure::Stalled(text)) => assert_eq!(
            text,
            "cluster upgrade did not finish within --max-ticks 1: stalled at upgrading a replica \
             (a node upgrade did not complete)"
        ),
        other => panic!("{other:?}"),
    }

    let sim = Sim::three_node("1.2.3", "1.2.2");
    sim.borrow_mut().nodes.pop();
    let mut live = build_live(&sim, &Rc::new(RefCell::new(Vec::new())));
    assert!(matches!(
        cmd_upgrade_cluster(&mut live, &roll_args(50, true), "1.2.3"),
        Err(ClusterFailure::Observe(
            ClusterUpgradeError::MembershipDrift { .. }
        ))
    ));
    let mut live = build_live(&sim, &Rc::new(RefCell::new(Vec::new())));
    assert!(matches!(
        cmd_upgrade_cluster(&mut live, &roll_args(50, false), "1.2.3"),
        Err(ClusterFailure::Roll(
            ClusterUpgradeError::MembershipDrift { .. }
        ))
    ));
}
