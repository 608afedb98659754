//! What a snapshot of the cluster says about a rolling upgrade.

use ironcache::cluster_upgrade::{find_master, ClusterView, NodeRole, NodeView};
use ironcache::repl::{LinkStatus, PromotionSafety, ReplOffset, ReplicaLag};

const TARGET: &str = "1.2.3";
const OLD: &str = "1.2.2";

/// An in-sync replica: link up, lag within the bound.
fn in_sync_replica(id: &str, version: &str) -> NodeView {
    NodeView {
        id: id.to_owned(),
        version: version.to_owned(),
        role: NodeRole::Replica,
        link: LinkStatus::Up,
        lag: Some(ReplicaLag::compute(ReplOffset(10), ReplOffset(9))), // lag 1
    }
}
fn master(id: &str, version: &str) -> NodeView {
    NodeView {
        id: id.to_owned(),
        version: version.to_owned(),
        role: NodeRole::Master,
        link: LinkStatus::Down,
        lag: None,
    }
}
fn view(nodes: Vec<NodeView>, old_primary: Option<&str>) -> ClusterView {
    ClusterView {
        nodes,
        target_version: TARGET.to_owned(),
        max_lag: 2,
        raft_quorum: true,
        old_primary_id: old_primary.map(str::to_owned),
    }
}

#[test]
fn replicas_to_upgrade_counts_only_old_version_replicas() {
    let v = view(
        vec![
            master("p", OLD),
            in_sync_replica("r1", OLD),    // needs upgrade
            in_sync_replica("r2", TARGET), // already upgraded
        ],
        None,
    );
    assert_eq!(
        v.replicas_to_upgrade(),
        1,
        "only the old-version replica counts"
    );
}

#[test]
fn replica_catching_up_only_for_an_upgraded_not_yet_in_sync_replica() {
    // An UPGRADED replica whose link is down -> catching up.
    let mut lagging = in_sync_replica("r1", TARGET);
    lagging.link = LinkStatus::Down;
    assert!(view(vec![master("p", OLD), lagging], None).replica_catching_up());

    // An UPGRADED replica over the lag bound -> catching up.
    let mut over = in_sync_replica("r2", TARGET);
    over.lag = Some(ReplicaLag::compute(ReplOffset(10), ReplOffset(5))); // lag 5 > 2
    assert!(view(vec![master("p", OLD), over], None).replica_catching_up());

    // A NOT-yet-upgraded replica is Phase-1 work, NOT "catching up".
    assert!(
        !view(vec![master("p", OLD), in_sync_replica("r3", OLD)], None).replica_catching_up()
    );

    // An upgraded, in-sync replica is caught up.
    assert!(
        !view(vec![master("p", OLD), in_sync_replica("r4", TARGET)], None)
            .replica_catching_up()
    );
}

#[test]
fn promotion_safety_gates_on_an_upgraded_in_sync_candidate_and_quorum() {
    // An upgraded in-sync replica + quorum -> Safe.
    let v = view(vec![master("p", OLD), in_sync_replica("r1", TARGET)], None);
    assert_eq!(v.promotion_safety(), PromotionSafety::Safe);

    // No upgraded in-sync replica (only an old-version replica) -> CandidateNotInSync.
    let v = view(vec![master("p", OLD), in_sync_replica("r1", OLD)], None);
    assert_eq!(v.promotion_safety(), PromotionSafety::CandidateNotInSync);

    // Quorum absent -> NoQuorum, even with a perfect candidate.
    let mut v = view(vec![master("p", OLD), in_sync_replica("r1", TARGET)], None);
    v.raft_quorum = false;
    assert_eq!(v.promotion_safety(), PromotionSafety::NoQuorum);
}

#[test]
fn select_promote_candidate_prefers_the_least_lagging_upgraded_in_sync_replica() {
    let mut r_far = in_sync_replica("r_far", TARGET);
    r_far.lag = Some(ReplicaLag::compute(ReplOffset(10), ReplOffset(8))); // lag 2
    let mut r_near = in_sync_replica("r_near", TARGET);
    r_near.lag = Some(ReplicaLag::compute(ReplOffset(10), ReplOffset(10))); // lag 0
    let v = view(vec![master("p", OLD), r_far, r_near], None);
    assert_eq!(
        v.select_promote_candidate().map(|n| n.id.as_str()),
        Some("r_near"),
        "the most-caught-up replica is chosen"
    );
}

#[test]
fn demotion_progress_tracks_the_pre_roll_primary_flipping_and_upgrading() {
    // Pre-roll: p is master (old). Not demoted, not old-primary-upgraded.
    let pre = view(
        vec![master("p", OLD), in_sync_replica("r1", TARGET)],
        Some("p"),
    );
    assert!(!pre.primary_demoted());
    assert!(!pre.old_primary_upgraded());

    // After promotion: r1 is now master, p flipped to replica (still old version) -> demoted, not
    // yet upgraded.
    let post = view(
        vec![
            master("r1", TARGET),
            NodeView {
                role: NodeRole::Replica,
                ..master("p", OLD) // p demoted to replica, still old
            },
        ],
        Some("p"),
    );
    assert!(post.primary_demoted());
    assert!(!post.old_primary_upgraded());

    // After the old primary is upgraded -> both true (the Done precondition).
    let done = view(
        vec![
            master("r1", TARGET),
            NodeView {
                role: NodeRole::Replica,
                ..master("p", TARGET)
            },
        ],
        Some("p"),
    );
    assert!(done.primary_demoted());
    assert!(done.old_primary_upgraded());
}

#[test]
fn a_safe_promotion_has_a_promotable_candidate() {
    let v = view(vec![master("p", OLD), in_sync_replica("r1", TARGET)], None);
    assert_eq!(v.promotion_safety(), PromotionSafety::Safe);
    let c = v.select_promote_candidate().expect("a candidate");
    assert!(c.is_promotable(TARGET, 2));
    assert!(c.is_upgraded(TARGET));
    assert!(c.is_caught_up(2));
    assert!(!c.is_caught_up(0));
}

#[test]
fn an_unlisted_replica_is_never_promotable() {
    let mut r = in_sync_replica("r1", TARGET);
    r.lag = None;
    assert!(!r.is_promotable(TARGET, u64::MAX));
    r.lag = Some(ReplicaLag::unknown());
    assert!(!r.is_promotable(TARGET, u64::MAX));
}

#[test]
fn an_upgraded_shard_has_no_work() {
    let v = view(vec![master("p", TARGET), in_sync_replica("r1", TARGET)], None);
    assert!(v.shard_fully_upgraded());
    assert!(v.master_on_target());
    assert_eq!(v.replicas_to_upgrade(), 0);
    let v = view(vec![master("p", OLD), in_sync_replica("r1", TARGET)], None);
    assert!(!v.shard_fully_upgraded());
    assert!(!v.master_on_target());
}

#[test]
fn the_first_master_is_found() {
    let nodes = vec![in_sync_replica("r1", OLD), master("p", OLD), master("q", OLD)];
    assert_eq!(find_master(&nodes), Some(1));
    assert_eq!(find_master(&nodes[..1]), None);
    assert_eq!(view(nodes, None).find_master(), Some(1));
}
